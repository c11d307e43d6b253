//! Betti numbers and the quantities derived from them.
//!
//! β_k = dim H^k = n_k - rank d_k - rank d_{k-1}, computed from exact
//! ranks and checked against dim ker Δ_k (Hodge theorem); the Euler
//! characteristic is χ = Σ_k (-1)^k β_k, which by Euler–Poincaré is also
//! Σ_k (-1)^k n_k.

use vstd::prelude::*;
use crate::complex::{cohomology_checked, cohomology_from_ranks, effective_rank, DeRhamComplex};
use crate::laplacian::{harmonic_dimension, laplacian};
use crate::rank::{has_nullity, has_rank};
use crate::forms::SimplicialComplex;

verus! {

/// Σ_{k < n} (-1)^k s[k].
pub open spec fn alternating_sum(s: Seq<usize>, n: nat) -> int
    decreases n,
{
    if n == 0 {
        0
    } else {
        alternating_sum(s, (n - 1) as nat) + (if (n - 1) % 2 == 0 {
            s[n - 1] as int
        } else {
            -(s[n - 1] as int)
        })
    }
}

/// Σ_{k < n} s[k].
pub open spec fn total(s: Seq<usize>, n: nat) -> int
    decreases n,
{
    if n == 0 {
        0
    } else {
        total(s, (n - 1) as nat) + s[n - 1]
    }
}

/// The Euler characteristic χ = Σ_k (-1)^k β_k of the given Betti numbers.
pub fn euler_characteristic_of(betti: &Vec<usize>) -> (chi: i64)
    requires
        forall|k: int| 0 <= k < betti@.len() ==> #[trigger] betti@[k] <= i64::MAX,
        forall|n: nat| n <= betti@.len() ==> i64::MIN <= #[trigger] alternating_sum(betti@, n) <= i64::MAX,
    ensures
        chi == alternating_sum(betti@, betti@.len()),
{
    let mut chi: i64 = 0;
    let mut k: usize = 0;
    while k < betti.len()
        invariant
            k <= betti@.len(),
            forall|j: int| 0 <= j < betti@.len() ==> #[trigger] betti@[j] <= i64::MAX,
            forall|n: nat| n <= betti@.len() ==> i64::MIN <= #[trigger] alternating_sum(betti@, n) <= i64::MAX,
            chi == alternating_sum(betti@, k as nat),
        decreases betti@.len() - k,
    {
        let b = betti[k] as i64;
        assert(alternating_sum(betti@, (k + 1) as nat) == chi + (if k % 2 == 0 {
            b as int
        } else {
            -(b as int)
        }));
        assert(i64::MIN <= alternating_sum(betti@, (k + 1) as nat) <= i64::MAX);
        if k % 2 == 0 {
            chi = chi + b;
        } else {
            chi = chi - b;
        }
        k = k + 1;
    }
    chi
}

/// The sum of the Betti numbers: the number of "holes" of every dimension.
pub fn sum_of_betti_numbers(betti: &Vec<usize>) -> (s: usize)
    requires
        total(betti@, betti@.len()) <= usize::MAX,
    ensures
        s == total(betti@, betti@.len()),
{
    let mut s: usize = 0;
    let mut k: usize = 0;
    while k < betti.len()
        invariant
            k <= betti@.len(),
            s == total(betti@, k as nat),
            total(betti@, betti@.len()) <= usize::MAX,
        decreases betti@.len() - k,
    {
        proof {
            lemma_total_monotone(betti@, (k + 1) as nat, betti@.len());
        }
        s = s + betti[k];
        k = k + 1;
    }
    s
}

/// Partial totals of counts grow with the prefix.
pub proof fn lemma_total_monotone(s: Seq<usize>, m: nat, n: nat)
    requires
        m <= n,
    ensures
        total(s, m) <= total(s, n),
    decreases n,
{
    if m < n {
        lemma_total_monotone(s, m, (n - 1) as nat);
    }
}

/// `(-1)^j v`.
pub open spec fn signed(j: int, v: int) -> int {
    if j % 2 == 0 {
        v
    } else {
        -v
    }
}

/// The prefix form of the Euler–Poincaré telescoping: the first m Betti
/// numbers alternate to the first m simplex counts, less the signed rank
/// of the last map d_{m-1}.
proof fn lemma_euler_poincare_prefix(complex: &SimplicialComplex, ranks: Seq<int>, betti: Seq<usize>, m: nat)
    requires
        complex.dims_consistent(),
        complex.simplex_count@.len() == complex.dimension + 1,
        betti.len() == complex.dimension + 1,
        m <= betti.len(),
        forall|k: int|
            0 <= k <= complex.dimension ==> #[trigger] betti[k] as int == cohomology_from_ranks(
                complex,
                k,
                ranks[k],
                ranks[k - 1],
            ),
    ensures
        alternating_sum(betti, m) == alternating_sum(complex.simplex_count@, m) - (if m == 0 {
            0
        } else {
            signed(m - 1, effective_rank(complex.d(m - 1), ranks[m - 1]))
        }),
    decreases m,
{
    if m > 0 {
        let j = m - 1;
        lemma_euler_poincare_prefix(complex, ranks, betti, j as nat);
        assert(betti[j] as int == cohomology_from_ranks(complex, j, ranks[j], ranks[j - 1]));
        if complex.num(j) == 0 {
            let dj = complex.d(j);
            if 0 <= j < complex.dimension && j < complex.boundary_matrices@.len() {
                assert(complex.boundary_matrices@[j].rows == complex.num(j));
                assert(dj.cols == 0);
            }
            assert(dj.rows * dj.cols == 0) by (nonlinear_arith)
                requires
                    dj.rows == 0 || dj.cols == 0,
            ;
            if j > 0 {
                let dp = complex.d(j - 1);
                if 0 <= j - 1 < complex.dimension && j - 1 < complex.boundary_matrices@.len() {
                    assert(complex.boundary_matrices@[j - 1].cols == complex.num(j));
                    assert(dp.rows == 0);
                }
                assert(dp.rows * dp.cols == 0) by (nonlinear_arith)
                    requires
                        dp.rows == 0 || dp.cols == 0,
                ;
            }
        }
        let r = effective_rank(complex.d(j), ranks[j]);
        let r_prev = if j == 0 {
            0
        } else {
            effective_rank(complex.d(j - 1), ranks[j - 1])
        };
        assert(betti[j] as int == complex.num(j) - r - r_prev);
        assert(complex.num(j) == complex.simplex_count@[j]);
        assert(alternating_sum(betti, m) == alternating_sum(betti, j as nat) + signed(j, betti[j] as int));
        assert(alternating_sum(complex.simplex_count@, m) == alternating_sum(complex.simplex_count@, j as nat)
            + signed(j, complex.simplex_count@[j] as int));
        assert(j == 0 || signed(j - 1, r_prev) + signed(j, r_prev) == 0) by {
            if j > 0 {
                assert((j - 1) % 2 == 0 <==> j % 2 == 1) by (nonlinear_arith)
                    requires
                        j > 0,
                ;
            }
        }
    }
}

/// Euler–Poincaré: whatever the ranks of the maps d_k, Betti numbers
/// β_k = n_k - rank d_k - rank d_{k-1} have the alternating sum of the
/// simplex counts, `Σ_k (-1)^k β_k = Σ_k (-1)^k n_k`.
pub proof fn lemma_euler_poincare(complex: &SimplicialComplex, ranks: Seq<int>, betti: Seq<usize>)
    requires
        complex.dims_consistent(),
        complex.simplex_count@.len() == complex.dimension + 1,
        betti.len() == complex.dimension + 1,
        forall|k: int|
            0 <= k <= complex.dimension ==> #[trigger] betti[k] as int == cohomology_from_ranks(
                complex,
                k,
                ranks[k],
                ranks[k - 1],
            ),
    ensures
        alternating_sum(betti, betti.len()) == alternating_sum(complex.simplex_count@, betti.len()),
{
    lemma_euler_poincare_prefix(complex, ranks, betti, betti.len());
}

/// `betti` are the Betti numbers of the complex for `ranks`, the ranks of
/// its maps: each `ranks[j]` is the rank of d_j, and
/// β_k = n_k - rank d_k - rank d_{k-1}.
pub open spec fn betti_from_ranks(complex: &SimplicialComplex, ranks: Seq<int>, betti: Seq<usize>) -> bool {
    &&& betti.len() == complex.dimension + 1
    &&& ranks.len() == complex.dimension + 1
    &&& forall|j: int| 0 <= j < ranks.len() ==> ranks[j] >= 0 && #[trigger] has_rank(complex.d(j), ranks[j] as nat)
    &&& forall|k: int|
        0 <= k <= complex.dimension ==> #[trigger] betti[k] as int == cohomology_from_ranks(
            complex,
            k,
            ranks[k],
            ranks[k - 1],
        )
}

/// The k-th Betti number β_k = dim H^k = n_k - rank d_k - rank d_{k-1},
/// with the ranks computed exactly; by the Hodge theorem it is also dim
/// ker Δ_k, the number of independent harmonic k-cochains, which is
/// computed exactly too and checked to agree.  `None` when a computation
/// needs values beyond `i128`, Δ_k cannot be formed, or the two counts
/// disagree (which the Hodge theorem rules out on a chain complex).
pub fn betti_number(complex: &SimplicialComplex, k: usize) -> (b: Option<usize>)
    requires
        complex.matrices_wf(),
    ensures
        match b {
            Some(v) => {
                &&& exists|rk: nat, rp: nat|
                    #![trigger has_rank(complex.d(k as int), rk), has_rank(complex.d(k - 1), rp)]
                    has_rank(complex.d(k as int), rk) && has_rank(complex.d(k - 1), rp) && v
                        == cohomology_from_ranks(complex, k as int, rk as int, rp as int)
                &&& has_nullity(laplacian(complex, k as int), v as nat)
            },
            None => true,
        },
{
    let v = match DeRhamComplex::new(complex).cohomology_dimension(k) {
        Some(v) => v,
        None => {
            return None;
        },
    };
    match harmonic_dimension(complex, k) {
        Some(t) => {
            if t == v {
                Some(v)
            } else {
                None
            }
        },
        None => None,
    }
}

/// `betti[k]` is the number of independent harmonic k-cochains, for every
/// degree k.
pub open spec fn harmonic_counts(complex: &SimplicialComplex, betti: Seq<usize>) -> bool {
    forall|k: int| 0 <= k < betti.len() ==> #[trigger] has_nullity(laplacian(complex, k), betti[k] as nat)
}

/// All Betti numbers β_0, ..., β_n of the complex, from one exact
/// computation of the ranks of d_0, ..., d_n, each checked against dim
/// ker Δ_k as in [`betti_number`].  `None` when a rank needs values beyond
/// `i128`, two ranks exceed a simplex count, or a count disagrees with
/// dim ker Δ_k.
pub fn betti_numbers(complex: &SimplicialComplex) -> (r: Option<Vec<usize>>)
    requires
        complex.matrices_wf(),
    ensures
        r matches Some(bs) ==> exists|rs: Seq<int>| #[trigger] betti_from_ranks(complex, rs, bs@),
        r matches Some(bs) ==> harmonic_counts(complex, bs@),
{
    let n = complex.dimension;
    if n == usize::MAX {
        return None;
    }
    let drc = DeRhamComplex::new(complex);
    let mut ranks: Vec<usize> = Vec::new();
    let mut j: usize = 0;
    while j <= n
        invariant
            j <= n + 1,
            n < usize::MAX,
            n == complex.dimension,
            drc.complex == complex,
            complex.matrices_wf(),
            ranks@.len() == j,
            forall|t: int| 0 <= t < j ==> #[trigger] has_rank(complex.d(t), ranks@[t] as nat),
        decreases n + 1 - j,
    {
        match drc.rank_of_d(j) {
            Some(v) => ranks.push(v),
            None => {
                return None;
            },
        }
        j = j + 1;
    }
    let ghost rk = ranks@.map_values(|v: usize| v as int);
    let mut bs: Vec<usize> = Vec::new();
    let mut k: usize = 0;
    while k <= n
        invariant
            k <= n + 1,
            n < usize::MAX,
            n == complex.dimension,
            drc.complex == complex,
            complex.matrices_wf(),
            ranks@.len() == n + 1,
            rk == ranks@.map_values(|v: usize| v as int),
            bs@.len() == k,
            forall|t: int| 0 <= t < k ==> #[trigger] bs@[t] as int == cohomology_from_ranks(complex, t, rk[t], rk[t - 1]),
            harmonic_counts(complex, bs@),
        decreases n + 1 - k,
    {
        let rp = if k == 0 {
            0
        } else {
            ranks[k - 1]
        };
        match cohomology_checked(&drc, k, ranks[k], rp) {
            Some(b) => {
                match harmonic_dimension(complex, k) {
                    Some(t) => {
                        if t != b {
                            return None;
                        }
                    },
                    None => {
                        return None;
                    },
                }
                proof {
                    if k > 0 {
                        assert(rk[k - 1] == rp);
                    } else {
                        assert(cohomology_from_ranks(complex, 0, rk[0], rp as int) == cohomology_from_ranks(
                            complex,
                            0,
                            rk[0],
                            rk[-1],
                        ));
                    }
                }
                bs.push(b);
            },
            None => {
                return None;
            },
        }
        k = k + 1;
    }
    proof {
        assert forall|j: int| 0 <= j < rk.len() implies rk[j] >= 0 && #[trigger] has_rank(
            complex.d(j),
            rk[j] as nat,
        ) by {
            assert(rk[j] == ranks@[j] as int);
            assert(has_rank(complex.d(j), ranks@[j] as nat));
        }
        assert(betti_from_ranks(complex, rk, bs@));
        assert(exists|rs: Seq<int>| #[trigger] betti_from_ranks(complex, rs, bs@));
    }
    let ghost contents = bs@;
    let res = Some(bs);
    assert(res matches Some(v) ==> v@ == contents);
    assert(harmonic_counts(complex, contents));
    res
}

/// Every Betti number and every partial alternating sum fits in `i64`.
pub open spec fn alternating_sums_fit(betti: Seq<usize>) -> bool {
    forall|k: int|
        0 <= k < betti.len() ==> #[trigger] betti[k] <= i64::MAX && i64::MIN <= alternating_sum(betti, (k + 1) as nat)
            <= i64::MAX
}

/// The Euler characteristic Σ_k (-1)^k β_k of given Betti numbers, negative
/// values included; `None` exactly when a Betti number or a partial sum
/// leaves `i64`.
pub fn euler_characteristic_checked(betti: &Vec<usize>) -> (chi: Option<i64>)
    ensures
        chi matches Some(x) ==> x == alternating_sum(betti@, betti@.len()),
        chi is Some <==> alternating_sums_fit(betti@),
{
    let mut chi: i64 = 0;
    let mut k: usize = 0;
    while k < betti.len()
        invariant
            k <= betti@.len(),
            chi == alternating_sum(betti@, k as nat),
            forall|j: int|
                0 <= j < k ==> #[trigger] betti@[j] <= i64::MAX && i64::MIN <= alternating_sum(
                    betti@,
                    (j + 1) as nat,
                ) <= i64::MAX,
        decreases betti@.len() - k,
    {
        if betti[k] as u128 > i64::MAX as u128 {
            proof {
                assert(!(betti@[k as int] <= i64::MAX));
            }
            return None;
        }
        let b = betti[k] as i64;
        proof {
            assert(alternating_sum(betti@, (k + 1) as nat) == chi + (if k % 2 == 0 {
                b as int
            } else {
                -(b as int)
            }));
        }
        let next = if k % 2 == 0 {
            chi.checked_add(b)
        } else {
            chi.checked_sub(b)
        };
        match next {
            Some(v) => {
                chi = v;
            },
            None => {
                proof {
                    assert(!(i64::MIN <= alternating_sum(betti@, (k + 1) as nat) <= i64::MAX));
                }
                return None;
            },
        }
        k = k + 1;
    }
    Some(chi)
}

/// The Euler characteristic χ = Σ_k (-1)^k β_k of the complex, from its
/// exactly computed Betti numbers.  By Euler–Poincaré it is also the
/// alternating sum of the simplex counts when the boundary shapes match
/// the counts.  `None` when a Betti number cannot be computed or the sum
/// leaves `i64`.
pub fn euler_characteristic(complex: &SimplicialComplex) -> (chi: Option<i64>)
    requires
        complex.matrices_wf(),
    ensures
        match chi {
            Some(x) => {
                &&& exists|ranks: Seq<int>, betti: Seq<usize>|
                    #[trigger] betti_from_ranks(complex, ranks, betti) && x == alternating_sum(betti, betti.len())
                &&& (complex.dims_consistent() && complex.simplex_count@.len() == complex.dimension + 1) ==> x
                    == alternating_sum(complex.simplex_count@, (complex.dimension + 1) as nat)
            },
            None => true,
        },
{
    let bs = match betti_numbers(complex) {
        Some(bs) => bs,
        None => {
            return None;
        },
    };
    let chi = match euler_characteristic_checked(&bs) {
        Some(x) => x,
        None => {
            return None;
        },
    };
    proof {
        let ranks = choose|ranks: Seq<int>| #[trigger] betti_from_ranks(complex, ranks, bs@);
        assert(betti_from_ranks(complex, ranks, bs@) && chi == alternating_sum(bs@, bs@.len()));
        if complex.dims_consistent() && complex.simplex_count@.len() == complex.dimension + 1 {
            lemma_euler_poincare(complex, ranks, bs@);
        }
    }
    Some(chi)
}

/// Totals over the first n counts depend only on those counts.
proof fn lemma_total_prefix(s: Seq<usize>, t: Seq<usize>, n: nat)
    requires
        n <= s.len(),
        n <= t.len(),
        forall|i: int| 0 <= i < n ==> s[i] == t[i],
    ensures
        total(s, n) == total(t, n),
    decreases n,
{
    if n > 0 {
        lemma_total_prefix(s, t, (n - 1) as nat);
    }
}

/// The total of a single count is that count, whatever it is.
pub proof fn lemma_total_single(c: usize)
    ensures
        total(seq![c], 1) == c,
{
    assert(total(seq![c], 0) == 0);
}

/// The total of two runs of counts is the sum of their totals:
/// `total(s + t) = total(s) + total(t)`.
pub proof fn lemma_total_concat(s: Seq<usize>, t: Seq<usize>)
    ensures
        total(s + t, s.len() + t.len()) == total(s, s.len()) + total(t, t.len()),
    decreases t.len(),
{
    if t.len() == 0 {
        assert(s + t =~= s);
    } else {
        let t1 = t.drop_last();
        lemma_total_concat(s, t1);
        let m = s.len() + t.len();
        lemma_total_prefix(s + t, s + t1, (m - 1) as nat);
        lemma_total_prefix(t, t1, (t.len() - 1) as nat);
        assert((s + t)[m - 1] == t[t.len() - 1]);
    }
}

/// Alternating sums over the first n counts depend only on those counts.
proof fn lemma_alternating_sum_prefix(s: Seq<usize>, t: Seq<usize>, n: nat)
    requires
        n <= s.len(),
        n <= t.len(),
        forall|i: int| 0 <= i < n ==> s[i] == t[i],
    ensures
        alternating_sum(s, n) == alternating_sum(t, n),
    decreases n,
{
    if n > 0 {
        lemma_alternating_sum_prefix(s, t, (n - 1) as nat);
    }
}

/// The alternating sum of a single count is that count.
pub proof fn lemma_alternating_sum_single(c: usize)
    ensures
        alternating_sum(seq![c], 1) == c,
{
    assert(alternating_sum(seq![c], 0) == 0);
}

/// The alternating sum of two runs of counts: the second run's sum enters
/// with the sign of its starting place,
/// `alt(s + t) = alt(s) + (-1)^{|s|} alt(t)`.
pub proof fn lemma_alternating_sum_concat(s: Seq<usize>, t: Seq<usize>)
    ensures
        alternating_sum(s + t, s.len() + t.len()) == alternating_sum(s, s.len()) + signed(
            s.len() as int,
            alternating_sum(t, t.len()),
        ),
    decreases t.len(),
{
    if t.len() == 0 {
        assert(s + t =~= s);
    } else {
        let t1 = t.drop_last();
        lemma_alternating_sum_concat(s, t1);
        let m = s.len() + t.len();
        lemma_alternating_sum_prefix(s + t, s + t1, (m - 1) as nat);
        lemma_alternating_sum_prefix(t, t1, (t.len() - 1) as nat);
        let last = t[t.len() - 1] as int;
        assert((s + t)[m - 1] == t[t.len() - 1]);
        let a = s.len() as int;
        let j = t.len() - 1;
        let at1 = alternating_sum(t1, t1.len());
        // signs: (-1)^(a + j) = (-1)^a (-1)^j
        assert(signed(a + j, last) == signed(a, signed(j, last))) by {
            assert((a + j) % 2 == 0 <==> (a % 2 == 0) == (j % 2 == 0)) by (nonlinear_arith)
                requires
                    a >= 0,
                    j >= 0,
            ;
        }
        assert(signed(a, at1 + signed(j, last)) == signed(a, at1) + signed(a, signed(j, last)));
    }
}

} // verus!
