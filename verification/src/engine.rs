//! The trust/distrust propagation engine.
//!
//! Positive opinions are spread by a pre-trust-anchored power iteration
//! with a fixed round budget; negative opinions are spread by a single,
//! prior-free hop; the difference of the two is the final signed
//! reputation per peer.
//!
//! The model functions in this module state the arithmetic of one round
//! exactly (including the rounding of every fixed-point division), and the
//! mass lemmas show that a round never creates opinion mass: that is what
//! keeps the fixed-budget iteration bounded and a lone accuser's reach
//! limited.

use vstd::prelude::*;
use vstd::math::max;
use crate::fixed::{
    ints_of, lemma_div_sum_pair, lemma_scaled_product_bound, lemma_sum_div_le,
    lemma_sum_elem_bound, lemma_sum_mul_const, lemma_sum_nonneg, lemma_sum_pointwise_add,
    lemma_sum_pointwise_eq, lemma_sum_pointwise_le, lemma_sum_take_all, lemma_sum_take_step,
    mat_of, sum_seq, SCALE,
};
use crate::utils::{is_square, mat_nonneg, normalise, normalise_spec, vec_nonneg, vec_scalar_mul, MAX_PEERS};
use vstd::arithmetic::div_mod::{
    lemma_div_is_ordered, lemma_div_multiples_vanish, lemma_div_pos_is_pos,
};
use vstd::arithmetic::mul::{
    lemma_mul_inequality, lemma_mul_is_commutative, lemma_mul_is_distributive_add_other_way,
    lemma_mul_upper_bound,
    lemma_mul_nonnegative,
};

verus! {

/// The largest total opinion mass (sum of a pre-trust or seed vector) the
/// engine accepts; keeps every score inside `i64` through all rounds.
pub const MAX_MASS: i64 = 1_000_000 * SCALE;

/// Entries of an integer matrix are non-negative.
pub open spec fn mat_entries_nonneg(m: Seq<Seq<int>>) -> bool {
    forall|i: int, j: int|
        0 <= i < m.len() && 0 <= j < m[i].len() ==> #[trigger] m[i][j] >= 0
}

/// Entries of an integer vector are non-negative.
pub open spec fn vec_entries_nonneg(v: Seq<int>) -> bool {
    forall|i: int| 0 <= i < v.len() ==> v[i] >= 0
}

/// An integer matrix with `m.len()` rows, each of length `n`.
pub open spec fn rows_len(m: Seq<Seq<int>>, n: int) -> bool {
    forall|i: int| 0 <= i < m.len() ==> (#[trigger] m[i]).len() == n
}

/// Every row of the matrix sums to at most `c`.
pub open spec fn row_sums_le(m: Seq<Seq<int>>, c: int) -> bool {
    forall|i: int| 0 <= i < m.len() ==> sum_seq(#[trigger] m[i]) <= c
}

/// The weighted opinion mass flowing into peer `i`: the dot product of
/// column `i` of `m` with the score vector `s`.
pub open spec fn col_dot(m: Seq<Seq<int>>, s: Seq<int>, i: int) -> int {
    sum_seq(Seq::new(m.len(), |j: int| m[j][i] * s[j]))
}

/// One propagation hop: every peer receives the incoming mass of its
/// column, scaled back down by one fixed-point unit.
pub open spec fn hop_spec(m: Seq<Seq<int>>, s: Seq<int>) -> Seq<int> {
    Seq::new(s.len(), |i: int| col_dot(m, s, i) / (SCALE as int))
}

/// One round of the anchored power iteration: the globalized share of a
/// hop plus the fixed pre-trust component.
pub open spec fn step_spec(m: Seq<Seq<int>>, pre_scaled: Seq<int>, alpha: int, s: Seq<int>) -> Seq<
    int,
> {
    Seq::new(
        s.len(),
        |i: int| pre_scaled[i] + (SCALE - alpha) * (col_dot(m, s, i) / (SCALE as int)) / (
        SCALE as int),
    )
}

/// `k` rounds of the anchored power iteration starting from `s0`.
pub open spec fn iterate_spec(
    m: Seq<Seq<int>>,
    pre_scaled: Seq<int>,
    alpha: int,
    s0: Seq<int>,
    k: nat,
) -> Seq<int>
    decreases k,
{
    if k == 0 {
        s0
    } else {
        step_spec(m, pre_scaled, alpha, iterate_spec(m, pre_scaled, alpha, s0, (k - 1) as nat))
    }
}

/// Each row of `m`, normalized with `fallback` for rows without mass.
pub open spec fn norm_rows_spec(m: Seq<Seq<int>>, fallback: Seq<int>) -> Seq<Seq<int>> {
    Seq::new(m.len(), |i: int| normalise_spec(m[i], fallback))
}

/// The whole positive run: normalize the opinion rows against the
/// pre-trust prior, then iterate `k` anchored rounds from `seed`.
pub open spec fn power_spec(
    m: Seq<Seq<int>>,
    pre: Seq<int>,
    seed: Seq<int>,
    alpha: int,
    k: nat,
) -> Seq<int> {
    iterate_spec(
        norm_rows_spec(m, pre),
        Seq::new(pre.len(), |i: int| pre[i] * alpha / (SCALE as int)),
        alpha,
        seed,
        k,
    )
}

/// The whole negative run: normalize the distrust rows against the zero
/// row (distrust has no prior), then propagate the trust scores one hop.
pub open spec fn distrust_spec(d: Seq<Seq<int>>, s: Seq<int>) -> Seq<int> {
    hop_spec(norm_rows_spec(d, Seq::new(s.len(), |i: int| 0)), s)
}

/// The sum of an all-zero sequence is zero.
pub proof fn lemma_sum_zero(n: nat)
    ensures
        sum_seq(Seq::new(n, |i: int| 0)) == 0,
    decreases n,
{
    let z = Seq::new(n, |i: int| 0int);
    if n > 0 {
        lemma_sum_zero((n - 1) as nat);
        assert(z.drop_last() =~= Seq::new((n - 1) as nat, |i: int| 0int));
    } else {
        assert(z =~= Seq::<int>::empty());
    }
}

/// A normalized row keeps non-negative entries and carries at most one
/// unit of mass (assuming its fallback does).
pub proof fn lemma_normalise_mass(row: Seq<int>, fallback: Seq<int>)
    requires
        vec_entries_nonneg(row),
        vec_entries_nonneg(fallback),
        sum_seq(row) != 0 || sum_seq(fallback) <= SCALE,
        row.len() == fallback.len(),
    ensures
        normalise_spec(row, fallback).len() == row.len(),
        vec_entries_nonneg(normalise_spec(row, fallback)),
        sum_seq(normalise_spec(row, fallback)) <= SCALE,
        forall|i: int|
            0 <= i < row.len() ==> #[trigger] normalise_spec(row, fallback)[i] <= SCALE,
{
    let s = sum_seq(row);
    let r = normalise_spec(row, fallback);
    if s == 0 {
        assert forall|i: int| 0 <= i < row.len() implies #[trigger] r[i] <= SCALE by {
            lemma_sum_elem_bound(fallback, i);
        }
    } else {
        lemma_sum_nonneg(row);
        assert forall|i: int| 0 <= i < r.len() implies 0 <= #[trigger] r[i] <= SCALE by {
            lemma_sum_elem_bound(row, i);
            lemma_scaled_product_bound(row[i], SCALE as int, s);
            lemma_mul_is_commutative(row[i], SCALE as int);
            assert(r[i] == row[i] * SCALE / s);
        }
        let scaled = Seq::new(row.len(), |i: int| row[i] * (SCALE as int));
        let divided = Seq::new(scaled.len(), |i: int| scaled[i] / s);
        assert(r =~= divided);
        assert forall|i: int| 0 <= i < scaled.len() implies #[trigger] scaled[i] >= 0 by {
            lemma_mul_nonnegative(row[i], SCALE as int);
        }
        lemma_sum_div_le(scaled, s);
        assert(sum_seq(Seq::new(row.len(), |i: int| (SCALE as int) * row[i])) == (SCALE as int)
            * sum_seq(row)) by {
            lemma_sum_mul_const(row, SCALE as int);
        }
        lemma_sum_pointwise_eq(scaled, Seq::new(row.len(), |i: int| (SCALE as int) * row[i]));
        assert(sum_seq(scaled) == (SCALE as int) * s);
        lemma_div_multiples_vanish(SCALE as int, s);
        assert(((s * SCALE) / s) == SCALE as int) by {
            lemma_mul_is_commutative(s, SCALE as int);
        }
        assert(sum_seq(divided) <= SCALE as int);
    }
}

/// A single column's incoming mass is non-negative and at most `c` times
/// the total mass of `s`, when every entry of the column is at most `c`.
pub proof fn lemma_col_dot_bound(m: Seq<Seq<int>>, s: Seq<int>, i: int, c: int)
    requires
        m.len() == s.len(),
        vec_entries_nonneg(s),
        c >= 0,
        forall|j: int| 0 <= j < m.len() ==> 0 <= #[trigger] m[j][i] <= c,
    ensures
        0 <= col_dot(m, s, i) <= c * sum_seq(s),
{
    let inner = Seq::new(m.len(), |j: int| m[j][i] * s[j]);
    let outer = Seq::new(m.len(), |j: int| c * s[j]);
    assert forall|j: int| 0 <= j < inner.len() implies 0 <= #[trigger] inner[j] <= outer[j] by {
        lemma_mul_nonnegative(m[j][i], s[j]);
        lemma_mul_inequality(m[j][i], c, s[j]);
        lemma_mul_is_commutative(m[j][i], s[j]);
        lemma_mul_is_commutative(c, s[j]);
    }
    lemma_sum_nonneg(inner);
    lemma_sum_pointwise_le(inner, outer);
    lemma_sum_mul_const(s, c);
}

/// Total incoming mass over all columns is at most `c` times the total
/// mass of `s`, when every row of `m` sums to at most `c`: a propagation
/// hop cannot create opinion mass.
pub proof fn lemma_total_dot_bound(m: Seq<Seq<int>>, s: Seq<int>, n: nat, c: int)
    requires
        m.len() == s.len(),
        rows_len(m, n as int),
        mat_entries_nonneg(m),
        row_sums_le(m, c),
        vec_entries_nonneg(s),
        c >= 0,
    ensures
        sum_seq(Seq::new(n, |i: int| col_dot(m, s, i))) <= c * sum_seq(s),
    decreases m.len(),
{
    let dots = Seq::new(n, |i: int| col_dot(m, s, i));
    if m.len() == 0 {
        assert forall|i: int| 0 <= i < n implies #[trigger] dots[i] == 0 by {
            assert(Seq::new(m.len(), |j: int| m[j][i] * s[j]) =~= Seq::<int>::empty());
        }
        lemma_sum_pointwise_eq(dots, Seq::new(n, |i: int| 0int));
        lemma_sum_zero(n);
        lemma_mul_nonnegative(c, sum_seq(s));
    } else {
        let m1 = m.drop_last();
        let s1 = s.drop_last();
        let last = m.len() - 1;
        lemma_total_dot_bound(m1, s1, n, c);
        let dots1 = Seq::new(n, |i: int| col_dot(m1, s1, i));
        let lastrow = Seq::new(n, |i: int| m[last][i] * s[last]);
        assert forall|i: int| 0 <= i < n implies #[trigger] dots[i] == dots1[i] + lastrow[i] by {
            let inner = Seq::new(m.len(), |j: int| m[j][i] * s[j]);
            let inner1 = Seq::new(m1.len(), |j: int| m1[j][i] * s1[j]);
            assert(inner.drop_last() =~= inner1);
            assert(inner.last() == m[last][i] * s[last]);
        }
        lemma_sum_pointwise_add(dots1, lastrow);
        lemma_sum_pointwise_eq(dots, Seq::new(n, |i: int| dots1[i] + lastrow[i]));
        assert(sum_seq(lastrow) == s[last] * sum_seq(m[last])) by {
            lemma_sum_mul_const(m[last], s[last]);
            assert(m[last].len() == n);
            lemma_sum_pointwise_eq(lastrow, Seq::new(n, |i: int| s[last] * m[last][i]));
        }
        assert(s[last] * sum_seq(m[last]) <= s[last] * c) by {
            lemma_sum_nonneg(m[last]);
            lemma_mul_inequality(sum_seq(m[last]), c, s[last]);
            lemma_mul_is_commutative(sum_seq(m[last]), s[last]);
            lemma_mul_is_commutative(c, s[last]);
        }
        assert(c * sum_seq(s1) + s[last] * c == c * sum_seq(s)) by {
            lemma_mul_is_distributive_add_other_way(c, sum_seq(s1), s[last]);
            lemma_mul_is_commutative(c, sum_seq(s1) + s[last]);
            lemma_mul_is_commutative(c, sum_seq(s1));
            lemma_mul_is_commutative(s[last], c);
        }
    }
}

/// A hop keeps entries non-negative and never increases total mass.
pub proof fn lemma_hop_mass(m: Seq<Seq<int>>, s: Seq<int>)
    requires
        m.len() == s.len(),
        rows_len(m, s.len() as int),
        mat_entries_nonneg(m),
        row_sums_le(m, SCALE as int),
        vec_entries_nonneg(s),
    ensures
        hop_spec(m, s).len() == s.len(),
        vec_entries_nonneg(hop_spec(m, s)),
        sum_seq(hop_spec(m, s)) <= sum_seq(s),
        forall|i: int| 0 <= i < s.len() ==> #[trigger] hop_spec(m, s)[i] <= sum_seq(s),
{
    let n = s.len();
    let h = hop_spec(m, s);
    let dots = Seq::new(n, |i: int| col_dot(m, s, i));
    assert forall|i: int| 0 <= i < n implies 0 <= #[trigger] dots[i] <= (SCALE as int) * sum_seq(
        s,
    ) by {
        assert forall|j: int| 0 <= j < m.len() implies 0 <= #[trigger] m[j][i] <= SCALE as int by {
            lemma_sum_elem_bound(m[j], i);
            lemma_sum_nonneg(m[j]);
        }
        lemma_col_dot_bound(m, s, i, SCALE as int);
    }
    assert forall|i: int| 0 <= i < n implies 0 <= #[trigger] h[i] <= sum_seq(s) by {
        lemma_div_pos_is_pos(dots[i], SCALE as int);
        lemma_div_is_ordered(dots[i], (SCALE as int) * sum_seq(s), SCALE as int);
        lemma_sum_nonneg(s);
        lemma_div_multiples_vanish(sum_seq(s), SCALE as int);
    }
    let divided = Seq::new(n, |i: int| dots[i] / (SCALE as int));
    assert(h =~= divided);
    lemma_sum_div_le(dots, SCALE as int);
    lemma_total_dot_bound(m, s, n, SCALE as int);
    lemma_div_is_ordered(sum_seq(dots), (SCALE as int) * sum_seq(s), SCALE as int);
    lemma_sum_nonneg(s);
    lemma_div_multiples_vanish(sum_seq(s), SCALE as int);
}

/// One anchored round keeps entries non-negative, and its total mass is at
/// most the pre-trust mass plus the globalized share of the incoming mass.
pub proof fn lemma_step_mass(m: Seq<Seq<int>>, pre_scaled: Seq<int>, alpha: int, s: Seq<int>)
    requires
        m.len() == s.len(),
        rows_len(m, s.len() as int),
        mat_entries_nonneg(m),
        row_sums_le(m, SCALE as int),
        vec_entries_nonneg(s),
        vec_entries_nonneg(pre_scaled),
        pre_scaled.len() == s.len(),
        0 <= alpha <= SCALE,
    ensures
        step_spec(m, pre_scaled, alpha, s).len() == s.len(),
        vec_entries_nonneg(step_spec(m, pre_scaled, alpha, s)),
        sum_seq(step_spec(m, pre_scaled, alpha, s)) <= sum_seq(pre_scaled) + (SCALE - alpha)
            * sum_seq(s) / (SCALE as int),
{
    let n = s.len();
    let st = step_spec(m, pre_scaled, alpha, s);
    let h = hop_spec(m, s);
    lemma_hop_mass(m, s);
    let g = Seq::new(n, |i: int| (SCALE - alpha) * h[i] / (SCALE as int));
    assert forall|i: int| 0 <= i < n implies 0 <= #[trigger] g[i] <= h[i] by {
        lemma_scaled_product_bound(SCALE - alpha, h[i], SCALE as int);
    }
    assert forall|i: int| 0 <= i < n implies #[trigger] st[i] == pre_scaled[i] + g[i] by {
    }
    lemma_sum_pointwise_add(pre_scaled, g);
    lemma_sum_pointwise_eq(st, Seq::new(n, |i: int| pre_scaled[i] + g[i]));
    // bound the globalized share
    let scaled = Seq::new(n, |i: int| (SCALE - alpha) * h[i]);
    let divided = Seq::new(n, |i: int| scaled[i] / (SCALE as int));
    assert forall|i: int| 0 <= i < n implies #[trigger] scaled[i] >= 0 by {
        lemma_mul_nonnegative(SCALE - alpha, h[i]);
    }
    assert(g =~= divided);
    lemma_sum_div_le(scaled, SCALE as int);
    lemma_sum_mul_const(h, SCALE - alpha);
    assert(sum_seq(scaled) == (SCALE - alpha) * sum_seq(h)) by {
        lemma_sum_pointwise_eq(scaled, Seq::new(n, |i: int| (SCALE - alpha) * h[i]));
    }
    assert((SCALE - alpha) * sum_seq(h) <= (SCALE - alpha) * sum_seq(s)) by {
        lemma_mul_inequality(sum_seq(h), sum_seq(s), SCALE - alpha);
        lemma_mul_is_commutative(sum_seq(h), SCALE - alpha);
        lemma_mul_is_commutative(sum_seq(s), SCALE - alpha);
    }
    lemma_div_is_ordered((SCALE - alpha) * sum_seq(h), (SCALE - alpha) * sum_seq(s), SCALE as int);
}

/// Any mass bound closed under one anchored round is kept by every number
/// of rounds; entries also stay non-negative. This is what makes the
/// fixed-budget iteration safe: with a pre-trust vector of total mass at
/// most `bound` and a seed within `bound`, no round can escape `bound`.
pub proof fn lemma_iterate_mass(
    m: Seq<Seq<int>>,
    pre_scaled: Seq<int>,
    alpha: int,
    s0: Seq<int>,
    k: nat,
    bound: int,
)
    requires
        m.len() == s0.len(),
        rows_len(m, s0.len() as int),
        mat_entries_nonneg(m),
        row_sums_le(m, SCALE as int),
        vec_entries_nonneg(s0),
        vec_entries_nonneg(pre_scaled),
        pre_scaled.len() == s0.len(),
        0 <= alpha <= SCALE,
        sum_seq(s0) <= bound,
        sum_seq(pre_scaled) + (SCALE - alpha) * bound / (SCALE as int) <= bound,
        bound >= 0,
    ensures
        iterate_spec(m, pre_scaled, alpha, s0, k).len() == s0.len(),
        vec_entries_nonneg(iterate_spec(m, pre_scaled, alpha, s0, k)),
        sum_seq(iterate_spec(m, pre_scaled, alpha, s0, k)) <= bound,
    decreases k,
{
    if k > 0 {
        let prev = iterate_spec(m, pre_scaled, alpha, s0, (k - 1) as nat);
        lemma_iterate_mass(m, pre_scaled, alpha, s0, (k - 1) as nat, bound);
        lemma_step_mass(m, pre_scaled, alpha, prev);
        assert((SCALE - alpha) * sum_seq(prev) <= (SCALE - alpha) * bound) by {
            lemma_mul_inequality(sum_seq(prev), bound, SCALE - alpha);
            lemma_mul_is_commutative(sum_seq(prev), SCALE - alpha);
            lemma_mul_is_commutative(bound, SCALE - alpha);
        }
        lemma_div_is_ordered(
            (SCALE - alpha) * sum_seq(prev),
            (SCALE - alpha) * bound,
            SCALE as int,
        );
    }
}

/// Bridges a non-negative fixed-point vector to its integer model.
pub proof fn lemma_model_nonneg(v: Seq<i64>)
    requires
        vec_nonneg(v),
    ensures
        vec_entries_nonneg(ints_of(v)),
        ints_of(v).len() == v.len(),
{
    assert forall|i: int| 0 <= i < ints_of(v).len() implies #[trigger] ints_of(v)[i] >= 0 by {
        assert(v[i] >= 0);
    }
}

/// Bridges a square fixed-point matrix to its integer model.
pub proof fn lemma_mat_model(m: Seq<Vec<i64>>, n: int)
    requires
        is_square(m, n),
    ensures
        mat_of(m).len() == n,
        rows_len(mat_of(m), n),
{
    assert forall|i: int| 0 <= i < mat_of(m).len() implies (#[trigger] mat_of(m)[i]).len() == n by {
        assert(m[i]@.len() == n);
    }
}

/// Bridges entrywise non-negativity of a fixed-point matrix to its model.
pub proof fn lemma_mat_model_nonneg(m: Seq<Vec<i64>>)
    requires
        mat_nonneg(m),
    ensures
        mat_entries_nonneg(mat_of(m)),
{
    assert forall|i: int, j: int|
        0 <= i < mat_of(m).len() && 0 <= j < mat_of(m)[i].len() implies #[trigger] mat_of(
        m,
    )[i][j] >= 0 by {
        assert(m[i]@[j] >= 0);
    }
}

/// One executable round of the anchored power iteration over an already
/// normalized matrix.
fn step_exec(tn: &Vec<Vec<i64>>, pre_scaled: &Vec<i64>, alpha: i64, s: &Vec<i64>) -> (r: Vec<i64>)
    requires
        tn@.len() == s@.len(),
        is_square(tn@, s@.len() as int),
        pre_scaled@.len() == s@.len(),
        s@.len() <= MAX_PEERS,
        mat_entries_nonneg(mat_of(tn@)),
        row_sums_le(mat_of(tn@), SCALE as int),
        vec_nonneg(s@),
        vec_nonneg(pre_scaled@),
        0 <= alpha <= SCALE,
        sum_seq(ints_of(s@)) <= MAX_MASS,
        sum_seq(ints_of(pre_scaled@)) <= MAX_MASS,
    ensures
        r@.len() == s@.len(),
        ints_of(r@) == step_spec(mat_of(tn@), ints_of(pre_scaled@), alpha as int, ints_of(s@)),
        vec_nonneg(r@),
{
    let n = s.len();
    let ghost tnm = mat_of(tn@);
    let ghost sm = ints_of(s@);
    let ghost pm = ints_of(pre_scaled@);
    proof {
        lemma_model_nonneg(s@);
        lemma_model_nonneg(pre_scaled@);
        lemma_mat_model(tn@, n as int);
    }
    let mut r: Vec<i64> = Vec::new();
    let mut i: usize = 0;
    while i < n
        invariant
            i <= n,
            n == s@.len() == tn@.len() == pre_scaled@.len(),
            n <= MAX_PEERS,
            is_square(tn@, n as int),
            tnm == mat_of(tn@),
            sm == ints_of(s@),
            pm == ints_of(pre_scaled@),
            rows_len(tnm, n as int),
            mat_entries_nonneg(tnm),
            row_sums_le(tnm, SCALE as int),
            vec_nonneg(s@),
            vec_nonneg(pre_scaled@),
            vec_entries_nonneg(sm),
            vec_entries_nonneg(pm),
            0 <= alpha <= SCALE,
            sum_seq(sm) <= MAX_MASS,
            sum_seq(pm) <= MAX_MASS,
            r@.len() == i,
            forall|k: int|
                0 <= k < i ==> r@[k] as int == pm[k] + (SCALE - alpha) * (col_dot(tnm, sm, k) / (
                SCALE as int)) / (SCALE as int),
            vec_nonneg(r@),
        decreases n - i,
    {
        let ghost inner = Seq::new(tnm.len(), |j: int| tnm[j][i as int] * sm[j]);
        let mut acc: u128 = 0;
        let mut j: usize = 0;
        while j < n
            invariant
                j <= n,
                i < n,
                n == s@.len() == tn@.len(),
                n <= MAX_PEERS,
                is_square(tn@, n as int),
                tnm == mat_of(tn@),
                sm == ints_of(s@),
                rows_len(tnm, n as int),
                mat_entries_nonneg(tnm),
                row_sums_le(tnm, SCALE as int),
                vec_nonneg(s@),
                vec_entries_nonneg(sm),
                sum_seq(sm) <= MAX_MASS,
                inner == Seq::new(tnm.len(), |jj: int| tnm[jj][i as int] * sm[jj]),
                acc as int == sum_seq(inner.take(j as int)),
                acc as int <= (j as int) * ((SCALE as int) * (MAX_MASS as int)),
            decreases n - j,
        {
            proof {
                assert(tn@[j as int]@.len() == n as int);
                assert(tnm[j as int] == ints_of(tn@[j as int]@));
                assert(tnm[j as int][i as int] == tn@[j as int]@[i as int] as int);
                assert(sm[j as int] == s@[j as int] as int);
                assert forall|b: int|
                    0 <= b < tnm[j as int].len() implies #[trigger] tnm[j as int][b] >= 0 by {}
                lemma_sum_elem_bound(tnm[j as int], i as int);
                lemma_sum_elem_bound(sm, j as int);
                lemma_mul_upper_bound(
                    tnm[j as int][i as int],
                    SCALE as int,
                    sm[j as int],
                    MAX_MASS as int,
                );
                lemma_mul_nonnegative(tnm[j as int][i as int], sm[j as int]);
                lemma_sum_take_step(inner, j as int);
                assert(inner[j as int] == tnm[j as int][i as int] * sm[j as int]);
                assert((j as int + 1) * ((SCALE as int) * (MAX_MASS as int)) == (j as int) * ((
                SCALE as int) * (MAX_MASS as int)) + (SCALE as int) * (MAX_MASS as int)) by {
                    lemma_mul_is_distributive_add_other_way(
                        (SCALE as int) * (MAX_MASS as int),
                        j as int,
                        1,
                    );
                }
                assert((j as int + 1) * ((SCALE as int) * (MAX_MASS as int)) <= (MAX_PEERS as int)
                    * ((SCALE as int) * (MAX_MASS as int))) by {
                    lemma_mul_inequality(
                        j as int + 1,
                        MAX_PEERS as int,
                        (SCALE as int) * (MAX_MASS as int),
                    );
                }
            }
            acc = acc + (tn[j][i] as u128) * (s[j] as u128);
            j = j + 1;
        }
        proof {
            lemma_sum_take_all(inner);
            assert(acc as int == col_dot(tnm, sm, i as int));
            assert forall|jj: int|
                0 <= jj < tnm.len() implies 0 <= #[trigger] tnm[jj][i as int] <= SCALE as int by {
                assert forall|b: int|
                    0 <= b < tnm[jj].len() implies #[trigger] tnm[jj][b] >= 0 by {}
                lemma_sum_elem_bound(tnm[jj], i as int);
                lemma_sum_nonneg(tnm[jj]);
            }
            lemma_col_dot_bound(tnm, sm, i as int, SCALE as int);
            lemma_sum_nonneg(sm);
            lemma_div_is_ordered(
                col_dot(tnm, sm, i as int),
                (SCALE as int) * sum_seq(sm),
                SCALE as int,
            );
            lemma_div_multiples_vanish(sum_seq(sm), SCALE as int);
            lemma_div_pos_is_pos(col_dot(tnm, sm, i as int), SCALE as int);
        }
        let h: u128 = acc / (SCALE as u128);
        proof {
            lemma_scaled_product_bound((SCALE - alpha) as int, h as int, SCALE as int);
        }
        let g: u128 = ((SCALE - alpha) as u128) * h / (SCALE as u128);
        proof {
            lemma_sum_elem_bound(pm, i as int);
            assert(pre_scaled@[i as int] as int == pm[i as int]);
        }
        let val: i64 = pre_scaled[i] + (g as i64);
        r.push(val);
        i = i + 1;
    }
    proof {
        assert(ints_of(r@) =~= step_spec(tnm, pm, alpha as int, sm));
    }
    r
}

/// The sum of a sequence that is zero everywhere except possibly at `a` is
/// the entry at `a`.
pub proof fn lemma_sum_single(s: Seq<int>, a: int)
    requires
        0 <= a < s.len(),
        forall|k: int| 0 <= k < s.len() && k != a ==> s[k] == 0,
    ensures
        sum_seq(s) == s[a],
    decreases s.len(),
{
    if a == s.len() - 1 {
        lemma_sum_zero((s.len() - 1) as nat);
        lemma_sum_pointwise_eq(s.drop_last(), Seq::new((s.len() - 1) as nat, |i: int| 0));
    } else {
        lemma_sum_single(s.drop_last(), a);
    }
}

/// The scaled pre-trust component has non-negative entries and carries at
/// most the globalization share of the pre-trust mass.
proof fn lemma_pre_scaled_mass(pre: Seq<int>, alpha: int)
    requires
        vec_entries_nonneg(pre),
        0 <= alpha <= SCALE,
    ensures
        vec_entries_nonneg(Seq::new(pre.len(), |i: int| pre[i] * alpha / (SCALE as int))),
        sum_seq(Seq::new(pre.len(), |i: int| pre[i] * alpha / (SCALE as int))) <= alpha * sum_seq(
            pre,
        ) / (SCALE as int),
        forall|i: int|
            0 <= i < pre.len() ==> #[trigger] (pre[i] * alpha / (SCALE as int)) <= pre[i],
{
    let psc = Seq::new(pre.len(), |i: int| pre[i] * alpha / (SCALE as int));
    assert forall|i: int| 0 <= i < pre.len() implies 0 <= #[trigger] (pre[i] * alpha / (
    SCALE as int)) <= pre[i] by {
        lemma_scaled_product_bound(alpha, pre[i], SCALE as int);
        lemma_mul_is_commutative(pre[i], alpha);
    }
    let scaled = Seq::new(pre.len(), |i: int| pre[i] * alpha);
    assert(psc =~= Seq::new(scaled.len(), |i: int| scaled[i] / (SCALE as int)));
    assert forall|i: int| 0 <= i < scaled.len() implies #[trigger] scaled[i] >= 0 by {
        lemma_mul_nonnegative(pre[i], alpha);
    }
    lemma_sum_div_le(scaled, SCALE as int);
    lemma_sum_mul_const(pre, alpha);
    assert forall|i: int|
        0 <= i < scaled.len() implies #[trigger] scaled[i] == Seq::new(
        pre.len(),
        |k: int| alpha * pre[k],
    )[i] by {
        lemma_mul_is_commutative(pre[i], alpha);
    }
    lemma_sum_pointwise_eq(scaled, Seq::new(pre.len(), |k: int| alpha * pre[k]));
}

/// The mass of every round of a whole positive run stays within the larger
/// of the seed mass and the pre-trust mass, and entries stay non-negative.
pub proof fn lemma_power_mass(m: Seq<Seq<int>>, pre: Seq<int>, seed: Seq<int>, alpha: int, k: nat)
    requires
        m.len() == seed.len(),
        pre.len() == seed.len(),
        rows_len(m, seed.len() as int),
        mat_entries_nonneg(m),
        vec_entries_nonneg(pre),
        vec_entries_nonneg(seed),
        0 <= alpha <= SCALE,
        forall|i: int| 0 <= i < m.len() ==> sum_seq(#[trigger] m[i]) > 0 || sum_seq(pre) <= SCALE,
    ensures
        power_spec(m, pre, seed, alpha, k).len() == seed.len(),
        vec_entries_nonneg(power_spec(m, pre, seed, alpha, k)),
        sum_seq(power_spec(m, pre, seed, alpha, k)) <= max(sum_seq(seed), sum_seq(pre)),
        forall|i: int|
            0 <= i < seed.len() ==> #[trigger] power_spec(m, pre, seed, alpha, k)[i] <= max(
                sum_seq(seed),
                sum_seq(pre),
            ),
{
    let n = seed.len();
    let tn = norm_rows_spec(m, pre);
    let psc = Seq::new(pre.len(), |i: int| pre[i] * alpha / (SCALE as int));
    let bound = max(sum_seq(seed), sum_seq(pre));
    lemma_sum_nonneg(seed);
    lemma_sum_nonneg(pre);
    // the normalized matrix is row-stochastic up to rounding
    assert forall|a: int| 0 <= a < n implies (#[trigger] tn[a]).len() == n && sum_seq(tn[a])
        <= SCALE && vec_entries_nonneg(tn[a]) by {
        assert forall|b: int| 0 <= b < m[a].len() implies #[trigger] m[a][b] >= 0 by {}
        lemma_sum_nonneg(m[a]);
        lemma_normalise_mass(m[a], pre);
    }
    assert(rows_len(tn, n as int));
    assert(row_sums_le(tn, SCALE as int));
    assert forall|a: int, b: int|
        0 <= a < tn.len() && 0 <= b < tn[a].len() implies #[trigger] tn[a][b] >= 0 by {
        assert(vec_entries_nonneg(tn[a]));
    }
    // the pre-trust component keeps the bound closed under one round
    lemma_pre_scaled_mass(pre, alpha);
    assert(alpha * sum_seq(pre) <= alpha * bound) by {
        lemma_mul_inequality(sum_seq(pre), bound, alpha);
        lemma_mul_is_commutative(sum_seq(pre), alpha);
        lemma_mul_is_commutative(bound, alpha);
    }
    lemma_div_is_ordered(alpha * sum_seq(pre), alpha * bound, SCALE as int);
    lemma_mul_nonnegative(alpha, bound);
    lemma_mul_nonnegative(SCALE - alpha, bound);
    lemma_div_sum_pair(alpha * bound, (SCALE - alpha) * bound, SCALE as int);
    assert(alpha * bound + (SCALE - alpha) * bound == (SCALE as int) * bound) by {
        lemma_mul_is_distributive_add_other_way(bound, alpha, SCALE - alpha);
    }
    lemma_div_multiples_vanish(bound, SCALE as int);
    assert(sum_seq(psc) + (SCALE - alpha) * bound / (SCALE as int) <= bound);
    lemma_iterate_mass(tn, psc, alpha, seed, k, bound);
    assert forall|i: int|
        0 <= i < n implies #[trigger] power_spec(m, pre, seed, alpha, k)[i] <= bound by {
        lemma_sum_elem_bound(iterate_spec(tn, psc, alpha, seed, k), i);
    }
}

/// Trust propagation boundedness: for a trust matrix of non-negative
/// opinions and a pre-trust vector of total mass one unit, every score of
/// the positive run lies in `[0, SCALE]` after any number of rounds — the
/// fixed-budget iteration cannot diverge. The run is also deterministic:
/// its value is [`power_spec`], a function of the inputs alone.
pub proof fn lemma_trust_bounded(t: Seq<Seq<int>>, p: Seq<int>, alpha: int, k: nat)
    requires
        t.len() == p.len(),
        rows_len(t, p.len() as int),
        mat_entries_nonneg(t),
        vec_entries_nonneg(p),
        sum_seq(p) == SCALE,
        0 <= alpha <= SCALE,
    ensures
        power_spec(t, p, p, alpha, k).len() == p.len(),
        forall|i: int|
            0 <= i < p.len() ==> 0 <= #[trigger] power_spec(t, p, p, alpha, k)[i] <= SCALE,
{
    lemma_power_mass(t, p, p, alpha, k);
    assert forall|i: int|
        0 <= i < p.len() implies 0 <= #[trigger] power_spec(t, p, p, alpha, k)[i] <= SCALE by {
        assert(vec_entries_nonneg(power_spec(t, p, p, alpha, k)));
    }
}

/// Distrust non-amplification: when peer `a` is the only accuser (every
/// other distrust row is zero), the distrust reaching any peer `i` is
/// exactly the accuser's own trust score scaled by the accusation's
/// normalized weight — in particular it never exceeds that trust score.
pub proof fn lemma_single_accuser(d: Seq<Seq<int>>, s: Seq<int>, a: int, i: int)
    requires
        d.len() == s.len(),
        rows_len(d, s.len() as int),
        mat_entries_nonneg(d),
        vec_entries_nonneg(s),
        0 <= a < d.len(),
        0 <= i < s.len(),
        forall|j: int, b: int|
            0 <= j < d.len() && j != a && 0 <= b < d[j].len() ==> #[trigger] d[j][b] == 0,
    ensures
        distrust_spec(d, s)[i] == norm_rows_spec(d, Seq::new(s.len(), |b: int| 0))[a][i] * s[a]
            / (SCALE as int),
        0 <= distrust_spec(d, s)[i] <= s[a],
{
    let n = s.len();
    let zm = Seq::new(n, |b: int| 0int);
    let dn = norm_rows_spec(d, zm);
    lemma_sum_zero(n);
    assert forall|j: int| 0 <= j < n && j != a implies #[trigger] dn[j] == zm by {
        lemma_sum_pointwise_eq(d[j], Seq::new(n, |b: int| 0int));
        assert(sum_seq(d[j]) == 0);
    }
    let inner = Seq::new(n, |j: int| dn[j][i] * s[j]);
    assert forall|j: int| 0 <= j < n && j != a implies #[trigger] inner[j] == 0 by {
        assert(dn[j][i] == 0);
    }
    lemma_sum_single(inner, a);
    assert(col_dot(dn, s, i) == dn[a][i] * s[a]);
    assert(distrust_spec(d, s)[i] == dn[a][i] * s[a] / (SCALE as int));
    assert forall|b: int| 0 <= b < d[a].len() implies #[trigger] d[a][b] >= 0 by {}
    lemma_normalise_mass(d[a], zm);
    assert(0 <= dn[a][i] <= SCALE) by {
        assert(vec_entries_nonneg(normalise_spec(d[a], zm)));
    }
    lemma_scaled_product_bound(dn[a][i], s[a], SCALE as int);
}

/// Runs `iters` anchored rounds over `m` normalized against `pre`,
/// starting from `seed`. The result is exactly the model value
/// [`power_spec`], so two runs on equal inputs return equal scores.
pub fn power_iteration(
    m: &Vec<Vec<i64>>,
    pre: &Vec<i64>,
    seed: &Vec<i64>,
    alpha: i64,
    iters: u64,
) -> (r: Vec<i64>)
    requires
        is_square(m@, m@.len() as int),
        mat_nonneg(m@),
        pre@.len() == m@.len(),
        seed@.len() == m@.len(),
        vec_nonneg(pre@),
        vec_nonneg(seed@),
        0 <= alpha <= SCALE,
        m@.len() <= MAX_PEERS,
        sum_seq(ints_of(pre@)) <= MAX_MASS,
        sum_seq(ints_of(seed@)) <= MAX_MASS,
        forall|i: int|
            0 <= i < m@.len() ==> sum_seq(#[trigger] mat_of(m@)[i]) > 0 || sum_seq(ints_of(pre@))
                <= SCALE,
    ensures
        r@.len() == m@.len(),
        ints_of(r@) == power_spec(
            mat_of(m@),
            ints_of(pre@),
            ints_of(seed@),
            alpha as int,
            iters as nat,
        ),
        vec_nonneg(r@),
        sum_seq(ints_of(r@)) <= max(sum_seq(ints_of(seed@)), sum_seq(ints_of(pre@))),
        forall|i: int|
            0 <= i < r@.len() ==> r@[i] as int <= max(
                sum_seq(ints_of(seed@)),
                sum_seq(ints_of(pre@)),
            ),
{
    let n = m.len();
    let ghost mm = mat_of(m@);
    let ghost pm = ints_of(pre@);
    let ghost sm0 = ints_of(seed@);
    let ghost bound = max(sum_seq(sm0), sum_seq(pm));
    proof {
        lemma_model_nonneg(pre@);
        lemma_model_nonneg(seed@);
        lemma_mat_model(m@, n as int);
        lemma_mat_model_nonneg(m@);
        lemma_sum_nonneg(pm);
        lemma_sum_nonneg(sm0);
    }
    let ghost tnm = norm_rows_spec(mm, pm);
    let mut tn: Vec<Vec<i64>> = Vec::new();
    let mut i: usize = 0;
    while i < n
        invariant
            i <= n,
            n == m@.len() == pre@.len(),
            n <= MAX_PEERS,
            is_square(m@, n as int),
            mat_nonneg(m@),
            vec_nonneg(pre@),
            mm == mat_of(m@),
            pm == ints_of(pre@),
            tnm == norm_rows_spec(mm, pm),
            forall|a: int|
                0 <= a < n ==> sum_seq(#[trigger] mm[a]) > 0 || sum_seq(pm) <= SCALE,
            tn@.len() == i,
            forall|a: int| 0 <= a < i ==> ints_of((#[trigger] tn@[a])@) == tnm[a],
            forall|a: int| 0 <= a < i ==> (#[trigger] tn@[a])@.len() == n,
            forall|a: int| 0 <= a < i ==> vec_nonneg((#[trigger] tn@[a])@),
        decreases n - i,
    {
        proof {
            assert(m@[i as int]@.len() == n as int);
            assert(mm[i as int] == ints_of(m@[i as int]@));
            assert forall|b: int| 0 <= b < m@[i as int]@.len() implies m@[i as int]@[b] >= 0 by {}
            assert(vec_nonneg(m@[i as int]@));
        }
        let row = normalise(&m[i], pre);
        proof {
            assert(tnm[i as int] == normalise_spec(mm[i as int], pm));
            if sum_seq(mm[i as int]) == 0 {
                assert(row@ == pre@);
            } else {
                assert(crate::utils::vec_bounded(row@, SCALE as int));
            }
            assert(vec_nonneg(row@));
        }
        tn.push(row);
        i = i + 1;
    }
    proof {
        assert(mat_of(tn@) =~= tnm);
        assert(is_square(tn@, n as int));
        assert forall|a: int| 0 <= a < n implies (#[trigger] tnm[a]).len() == n && sum_seq(
            tnm[a],
        ) <= SCALE && vec_entries_nonneg(tnm[a]) by {
            assert forall|b: int| 0 <= b < mm[a].len() implies #[trigger] mm[a][b] >= 0 by {}
            lemma_sum_nonneg(mm[a]);
            lemma_normalise_mass(mm[a], pm);
        }
        assert(rows_len(tnm, n as int));
        assert(row_sums_le(tnm, SCALE as int));
        assert forall|a: int, b: int|
            0 <= a < tnm.len() && 0 <= b < tnm[a].len() implies #[trigger] tnm[a][b] >= 0 by {
            assert(vec_entries_nonneg(tnm[a]));
        }
        assert(mat_entries_nonneg(tnm));
        // scaled pre-trust component fits in i64
        lemma_pre_scaled_mass(pm, alpha as int);
        assert forall|k: int|
            0 <= k < pre@.len() implies #[trigger] (pre@[k] * alpha) / (SCALE as int)
            <= i64::MAX by {
            lemma_sum_elem_bound(pm, k);
            assert(pm[k] == pre@[k] as int);
            assert(pm[k] * (alpha as int) / (SCALE as int) <= pm[k]);
        }
    }
    let pre_scaled = vec_scalar_mul(pre, alpha);
    let ghost psc = Seq::new(pm.len(), |k: int| pm[k] * (alpha as int) / (SCALE as int));
    proof {
        assert(ints_of(pre_scaled@) =~= psc);
        lemma_model_nonneg(pre_scaled@);
        lemma_power_mass(mm, pm, sm0, alpha as int, 0nat);
        assert(sum_seq(psc) <= (alpha as int) * sum_seq(pm) / (SCALE as int));
        assert((alpha as int) * sum_seq(pm) <= (alpha as int) * (MAX_MASS as int)) by {
            lemma_mul_inequality(sum_seq(pm), MAX_MASS as int, alpha as int);
            lemma_mul_is_commutative(sum_seq(pm), alpha as int);
            lemma_mul_is_commutative(MAX_MASS as int, alpha as int);
        }
        lemma_div_is_ordered(
            (alpha as int) * sum_seq(pm),
            (alpha as int) * (MAX_MASS as int),
            SCALE as int,
        );
        lemma_scaled_product_bound(alpha as int, MAX_MASS as int, SCALE as int);
        assert(sum_seq(psc) <= MAX_MASS);
    }
    let mut s = seed.clone();
    let mut k: u64 = 0;
    proof {
        assert(ints_of(s@) == iterate_spec(tnm, psc, alpha as int, sm0, 0nat));
    }
    while k < iters
        invariant
            k <= iters,
            n == m@.len() == pre@.len() == seed@.len(),
            n <= MAX_PEERS,
            mm == mat_of(m@),
            pm == ints_of(pre@),
            sm0 == ints_of(seed@),
            bound == max(sum_seq(sm0), sum_seq(pm)),
            tnm == norm_rows_spec(mm, pm),
            psc == Seq::new(pm.len(), |kk: int| pm[kk] * (alpha as int) / (SCALE as int)),
            rows_len(mm, n as int),
            mat_entries_nonneg(mm),
            vec_entries_nonneg(pm),
            vec_entries_nonneg(sm0),
            forall|a: int|
                0 <= a < n ==> sum_seq(#[trigger] mm[a]) > 0 || sum_seq(pm) <= SCALE,
            0 <= alpha <= SCALE,
            sum_seq(pm) <= MAX_MASS,
            sum_seq(sm0) <= MAX_MASS,
            tn@.len() == n,
            is_square(tn@, n as int),
            mat_of(tn@) == tnm,
            mat_entries_nonneg(tnm),
            row_sums_le(tnm, SCALE as int),
            pre_scaled@.len() == n,
            vec_nonneg(pre_scaled@),
            ints_of(pre_scaled@) == psc,
            sum_seq(psc) <= MAX_MASS,
            s@.len() == n,
            vec_nonneg(s@),
            ints_of(s@) == iterate_spec(tnm, psc, alpha as int, sm0, k as nat),
        decreases iters - k,
    {
        proof {
            lemma_power_mass(mm, pm, sm0, alpha as int, k as nat);
            assert(power_spec(mm, pm, sm0, alpha as int, k as nat) == iterate_spec(
                tnm,
                psc,
                alpha as int,
                sm0,
                k as nat,
            ));
            assert(sum_seq(ints_of(s@)) <= bound);
            assert(bound <= MAX_MASS);
        }
        let s2 = step_exec(&tn, &pre_scaled, alpha, &s);
        proof {
            assert(iterate_spec(tnm, psc, alpha as int, sm0, (k + 1) as nat) == step_spec(
                tnm,
                psc,
                alpha as int,
                iterate_spec(tnm, psc, alpha as int, sm0, k as nat),
            ));
        }
        s = s2;
        k = k + 1;
    }
    proof {
        lemma_power_mass(mm, pm, sm0, alpha as int, iters as nat);
        assert(ints_of(s@) == power_spec(mm, pm, sm0, alpha as int, iters as nat));
        assert forall|ii: int| 0 <= ii < s@.len() implies s@[ii] as int <= bound by {
            assert(ints_of(s@)[ii] == s@[ii] as int);
        }
    }
    s
}

/// The positive run: spreads the validated trust opinions `lt` from the
/// pre-trust prior with globalization weight `alpha` for exactly `iters`
/// rounds (a fixed budget, not a convergence test), and returns the global
/// trust score of every peer.
pub fn propagate_trust(lt: &Vec<Vec<i64>>, pre_trust: &Vec<i64>, alpha: i64, iters: u64) -> (r: Vec<
    i64,
>)
    requires
        is_square(lt@, lt@.len() as int),
        mat_nonneg(lt@),
        pre_trust@.len() == lt@.len(),
        vec_nonneg(pre_trust@),
        0 <= alpha <= SCALE,
        lt@.len() <= MAX_PEERS,
        sum_seq(ints_of(pre_trust@)) <= MAX_MASS,
        forall|i: int|
            0 <= i < lt@.len() ==> sum_seq(#[trigger] mat_of(lt@)[i]) > 0 || sum_seq(
                ints_of(pre_trust@),
            ) <= SCALE,
    ensures
        r@.len() == lt@.len(),
        ints_of(r@) == power_spec(
            mat_of(lt@),
            ints_of(pre_trust@),
            ints_of(pre_trust@),
            alpha as int,
            iters as nat,
        ),
        vec_nonneg(r@),
        sum_seq(ints_of(r@)) <= sum_seq(ints_of(pre_trust@)),
        forall|i: int| 0 <= i < r@.len() ==> r@[i] as int <= sum_seq(ints_of(pre_trust@)),
{
    power_iteration(lt, pre_trust, pre_trust, alpha, iters)
}

/// The negative run: normalizes the distrust opinions against the zero row
/// (no prior for distrust) and propagates the converged trust scores for
/// exactly one hop.
pub fn propagate_distrust(ld: &Vec<Vec<i64>>, s_trust: &Vec<i64>) -> (r: Vec<i64>)
    requires
        is_square(ld@, ld@.len() as int),
        mat_nonneg(ld@),
        s_trust@.len() == ld@.len(),
        vec_nonneg(s_trust@),
        ld@.len() <= MAX_PEERS,
        sum_seq(ints_of(s_trust@)) <= MAX_MASS,
    ensures
        r@.len() == ld@.len(),
        ints_of(r@) == distrust_spec(mat_of(ld@), ints_of(s_trust@)),
        vec_nonneg(r@),
        sum_seq(ints_of(r@)) <= sum_seq(ints_of(s_trust@)),
        forall|i: int| 0 <= i < r@.len() ==> r@[i] as int <= sum_seq(ints_of(s_trust@)),
{
    let n = ld.len();
    let ghost dm = mat_of(ld@);
    let ghost sm = ints_of(s_trust@);
    proof {
        lemma_model_nonneg(s_trust@);
        lemma_mat_model(ld@, n as int);
        lemma_mat_model_nonneg(ld@);
        lemma_sum_nonneg(sm);
    }
    let mut zero: Vec<i64> = Vec::new();
    let mut z: usize = 0;
    while z < n
        invariant
            z <= n,
            zero@.len() == z,
            forall|b: int| 0 <= b < z ==> zero@[b] == 0,
        decreases n - z,
    {
        zero.push(0i64);
        z = z + 1;
    }
    let ghost zm = Seq::new(n as nat, |b: int| 0int);
    proof {
        assert(ints_of(zero@) =~= zm);
        lemma_sum_zero(n as nat);
        assert(vec_nonneg(zero@));
        assert(vec_entries_nonneg(zm));
    }
    let ghost dnm = norm_rows_spec(dm, zm);
    let mut dn: Vec<Vec<i64>> = Vec::new();
    let mut i: usize = 0;
    while i < n
        invariant
            i <= n,
            n == ld@.len(),
            n <= MAX_PEERS,
            is_square(ld@, n as int),
            mat_nonneg(ld@),
            dm == mat_of(ld@),
            zm == Seq::new(n as nat, |b: int| 0int),
            sum_seq(zm) == 0,
            zero@.len() == n,
            vec_nonneg(zero@),
            ints_of(zero@) == zm,
            dnm == norm_rows_spec(dm, zm),
            dn@.len() == i,
            forall|a: int| 0 <= a < i ==> ints_of((#[trigger] dn@[a])@) == dnm[a],
            forall|a: int| 0 <= a < i ==> (#[trigger] dn@[a])@.len() == n,
            forall|a: int| 0 <= a < i ==> vec_nonneg((#[trigger] dn@[a])@),
        decreases n - i,
    {
        proof {
            assert(ld@[i as int]@.len() == n as int);
            assert(dm[i as int] == ints_of(ld@[i as int]@));
            assert forall|b: int| 0 <= b < ld@[i as int]@.len() implies ld@[i as int]@[b] >= 0 by {}
            assert(vec_nonneg(ld@[i as int]@));
        }
        let row = normalise(&ld[i], &zero);
        proof {
            assert(dnm[i as int] == normalise_spec(dm[i as int], zm));
            if sum_seq(dm[i as int]) == 0 {
                assert(row@ == zero@);
            } else {
                assert(crate::utils::vec_bounded(row@, SCALE as int));
            }
            assert(vec_nonneg(row@));
        }
        dn.push(row);
        i = i + 1;
    }
    proof {
        assert(mat_of(dn@) =~= dnm);
        assert(is_square(dn@, n as int));
        assert forall|a: int| 0 <= a < n implies (#[trigger] dnm[a]).len() == n && sum_seq(
            dnm[a],
        ) <= SCALE && vec_entries_nonneg(dnm[a]) by {
            assert forall|b: int| 0 <= b < dm[a].len() implies #[trigger] dm[a][b] >= 0 by {}
            lemma_sum_nonneg(dm[a]);
            lemma_normalise_mass(dm[a], zm);
        }
        assert(rows_len(dnm, n as int));
        assert(row_sums_le(dnm, SCALE as int));
        assert forall|a: int, b: int|
            0 <= a < dnm.len() && 0 <= b < dnm[a].len() implies #[trigger] dnm[a][b] >= 0 by {
            assert(vec_entries_nonneg(dnm[a]));
        }
        assert(mat_entries_nonneg(dnm));
        lemma_sum_zero(n as nat);
        assert(sum_seq(ints_of(zero@)) == 0);
    }
    let r = step_exec(&dn, &zero, 0, s_trust);
    proof {
        let st = step_spec(dnm, zm, 0, sm);
        let h = hop_spec(dnm, sm);
        assert forall|ii: int| 0 <= ii < st.len() implies #[trigger] st[ii] == h[ii] by {
            assert(zm[ii] == 0);
            let d = col_dot(dnm, sm, ii) / (SCALE as int);
            assert((SCALE as int) * d / (SCALE as int) == d) by {
                lemma_div_multiples_vanish(d, SCALE as int);
            }
        }
        assert(st =~= h);
        lemma_hop_mass(dnm, sm);
        assert(ints_of(r@) == distrust_spec(dm, sm));
        assert forall|ii: int| 0 <= ii < r@.len() implies r@[ii] as int <= sum_seq(sm) by {
            assert(ints_of(r@)[ii] == r@[ii] as int);
        }
    }
    r
}

/// Subtracts the propagated distrust from the propagated trust, leaving
/// the final signed reputation; a negative entry is meaningful and is not
/// clamped.
pub fn combine(s: &Vec<i64>, sd: &Vec<i64>) -> (r: Vec<i64>)
    requires
        s@.len() == sd@.len(),
        forall|i: int|
            0 <= i < s@.len() ==> i64::MIN <= #[trigger] (s@[i] - sd@[i]) <= i64::MAX,
    ensures
        r@.len() == s@.len(),
        forall|i: int| 0 <= i < s@.len() ==> r@[i] == #[trigger] (s@[i] - sd@[i]),
{
    let n = s.len();
    let mut r: Vec<i64> = Vec::new();
    let mut i: usize = 0;
    while i < n
        invariant
            i <= n,
            n == s@.len() == sd@.len(),
            forall|k: int|
                0 <= k < n ==> i64::MIN <= #[trigger] (s@[k] - sd@[k]) <= i64::MAX,
            r@.len() == i,
            forall|k: int| 0 <= k < i ==> r@[k] == #[trigger] (s@[k] - sd@[k]),
        decreases n - i,
    {
        r.push(s[i] - sd[i]);
        i = i + 1;
    }
    r
}

} // verus!
