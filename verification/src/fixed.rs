//! Fixed-point representation and the summation facts the engine rests on.
//!
//! An `i64` value `x` stands for the real number `x / SCALE`, so `SCALE`
//! itself is `1.0`. All propagation arithmetic multiplies two such values
//! in 128-bit intermediates and divides by `SCALE`, rounding toward zero
//! (every quantity divided in this crate is non-negative, so this is a
//! floor).

use vstd::prelude::*;
use vstd::arithmetic::div_mod::{
    lemma_div_is_ordered, lemma_div_pos_is_pos, lemma_fundamental_div_mod,
    lemma_mod_division_less_than_divisor,
};
use vstd::arithmetic::mul::{
    lemma_mul_inequality, lemma_mul_is_commutative, lemma_mul_is_distributive_add_other_way,
    lemma_mul_nonnegative,
};

verus! {

/// One whole unit: `SCALE` stands for the real number 1.0.
pub const SCALE: i64 = 1_000_000_000;

/// The mathematical integers behind a sequence of fixed-point values.
pub open spec fn ints_of(v: Seq<i64>) -> Seq<int> {
    Seq::new(v.len(), |i: int| v[i] as int)
}

/// The mathematical matrix behind a vector of fixed-point rows.
pub open spec fn mat_of(m: Seq<Vec<i64>>) -> Seq<Seq<int>> {
    Seq::new(m.len(), |i: int| ints_of(m[i]@))
}

/// Sum of a sequence of mathematical integers.
pub open spec fn sum_seq(s: Seq<int>) -> int
    decreases s.len(),
{
    if s.len() == 0 {
        0
    } else {
        sum_seq(s.drop_last()) + s.last()
    }
}

/// Extending a prefix sum by one element.
pub proof fn lemma_sum_take_step(s: Seq<int>, j: int)
    requires
        0 <= j < s.len(),
    ensures
        sum_seq(s.take(j + 1)) == sum_seq(s.take(j)) + s[j],
{
    assert(s.take(j + 1).drop_last() =~= s.take(j));
    assert(s.take(j + 1).last() == s[j]);
}

/// The whole sequence is its own full prefix.
pub proof fn lemma_sum_take_all(s: Seq<int>)
    ensures
        sum_seq(s.take(s.len() as int)) == sum_seq(s),
{
    assert(s.take(s.len() as int) =~= s);
}

/// A prefix of a sum of non-negative values never exceeds the whole sum.
pub proof fn lemma_sum_take_le(s: Seq<int>, j: int)
    requires
        0 <= j <= s.len(),
        forall|i: int| 0 <= i < s.len() ==> s[i] >= 0,
    ensures
        sum_seq(s.take(j)) <= sum_seq(s),
    decreases s.len() - j,
{
    if j == s.len() {
        lemma_sum_take_all(s);
    } else {
        lemma_sum_take_step(s, j);
        lemma_sum_take_le(s, j + 1);
    }
}

/// A sum of non-negative values is non-negative.
pub proof fn lemma_sum_nonneg(s: Seq<int>)
    requires
        forall|i: int| 0 <= i < s.len() ==> s[i] >= 0,
    ensures
        sum_seq(s) >= 0,
    decreases s.len(),
{
    if s.len() > 0 {
        lemma_sum_nonneg(s.drop_last());
    }
}

/// In a sequence of non-negative values, every element is at most the sum.
pub proof fn lemma_sum_elem_bound(s: Seq<int>, i: int)
    requires
        forall|k: int| 0 <= k < s.len() ==> s[k] >= 0,
        0 <= i < s.len(),
    ensures
        s[i] <= sum_seq(s),
    decreases s.len(),
{
    if i == s.len() - 1 {
        lemma_sum_nonneg(s.drop_last());
    } else {
        lemma_sum_elem_bound(s.drop_last(), i);
    }
}

/// Summation is monotone under a pointwise bound.
pub proof fn lemma_sum_pointwise_le(a: Seq<int>, b: Seq<int>)
    requires
        a.len() == b.len(),
        forall|i: int| 0 <= i < a.len() ==> a[i] <= b[i],
    ensures
        sum_seq(a) <= sum_seq(b),
    decreases a.len(),
{
    if a.len() > 0 {
        lemma_sum_pointwise_le(a.drop_last(), b.drop_last());
    }
}

/// Two equal sequences have equal sums (stated over pointwise equality so
/// that sums over differently-built sequences can be connected).
pub proof fn lemma_sum_pointwise_eq(a: Seq<int>, b: Seq<int>)
    requires
        a.len() == b.len(),
        forall|i: int| 0 <= i < a.len() ==> a[i] == b[i],
    ensures
        sum_seq(a) == sum_seq(b),
{
    assert(a =~= b);
}

/// Summation distributes over pointwise addition.
pub proof fn lemma_sum_pointwise_add(a: Seq<int>, b: Seq<int>)
    requires
        a.len() == b.len(),
    ensures
        sum_seq(Seq::new(a.len(), |i: int| a[i] + b[i])) == sum_seq(a) + sum_seq(b),
    decreases a.len(),
{
    let c = Seq::new(a.len(), |i: int| a[i] + b[i]);
    if a.len() > 0 {
        let a1 = a.drop_last();
        let b1 = b.drop_last();
        lemma_sum_pointwise_add(a1, b1);
        let c1 = Seq::new(a1.len(), |i: int| a1[i] + b1[i]);
        assert(c.drop_last() =~= c1);
    } else {
        assert(c =~= Seq::<int>::empty());
    }
}

/// A common factor moves out of a sum.
pub proof fn lemma_sum_mul_const(s: Seq<int>, c: int)
    ensures
        sum_seq(Seq::new(s.len(), |i: int| c * s[i])) == c * sum_seq(s),
    decreases s.len(),
{
    let m = Seq::new(s.len(), |i: int| c * s[i]);
    if s.len() > 0 {
        let s1 = s.drop_last();
        lemma_sum_mul_const(s1, c);
        let m1 = Seq::new(s1.len(), |i: int| c * s1[i]);
        assert(m.drop_last() =~= m1);
        assert(c * (sum_seq(s1) + s.last()) == c * sum_seq(s1) + c * s.last()) by {
            lemma_mul_is_distributive_add_other_way(c, sum_seq(s1), s.last());
            lemma_mul_is_commutative(c, sum_seq(s1) + s.last());
            lemma_mul_is_commutative(c, sum_seq(s1));
            lemma_mul_is_commutative(c, s.last());
        }
    } else {
        assert(m =~= Seq::<int>::empty());
    }
}

/// The sum of `n` copies of `c` is `n * c`.
pub proof fn lemma_sum_const(n: nat, c: int)
    ensures
        sum_seq(Seq::new(n, |i: int| c)) == n * c,
    decreases n,
{
    let s = Seq::new(n, |i: int| c);
    if n == 0 {
        assert(s =~= Seq::<int>::empty());
    } else {
        lemma_sum_const((n - 1) as nat, c);
        assert(s.drop_last() =~= Seq::new((n - 1) as nat, |i: int| c));
        assert(n * c == (n - 1) * c + c) by {
            lemma_mul_is_distributive_add_other_way(c, n - 1, 1);
        }
    }
}

/// Floor division loses mass: the sum of two quotients is at most the
/// quotient of the sum.
pub proof fn lemma_div_sum_pair(x: int, y: int, d: int)
    requires
        x >= 0,
        y >= 0,
        d > 0,
    ensures
        x / d + y / d <= (x + y) / d,
{
    lemma_fundamental_div_mod(x, d);
    lemma_fundamental_div_mod(y, d);
    lemma_mod_division_less_than_divisor(x, d);
    lemma_mod_division_less_than_divisor(y, d);
    let q = x / d + y / d;
    assert(x + y == d * q + (x % d + y % d)) by {
        lemma_mul_is_distributive_add_other_way(d, x / d, y / d);
        lemma_mul_is_commutative(d, x / d);
        lemma_mul_is_commutative(d, y / d);
        lemma_mul_is_commutative(d, q);
    }
    assert(d * q <= x + y) by {
        lemma_mul_nonnegative(d, q);
    }
    assert(q == (d * q) / d) by {
        vstd::arithmetic::div_mod::lemma_div_multiples_vanish(q, d);
    }
    lemma_div_is_ordered(d * q, x + y, d);
}

/// Floor division of every element loses mass against dividing the sum.
pub proof fn lemma_sum_div_le(s: Seq<int>, d: int)
    requires
        d > 0,
        forall|i: int| 0 <= i < s.len() ==> s[i] >= 0,
    ensures
        sum_seq(Seq::new(s.len(), |i: int| s[i] / d)) <= sum_seq(s) / d,
    decreases s.len(),
{
    let q = Seq::new(s.len(), |i: int| s[i] / d);
    if s.len() > 0 {
        let s1 = s.drop_last();
        lemma_sum_div_le(s1, d);
        let q1 = Seq::new(s1.len(), |i: int| s1[i] / d);
        assert(q.drop_last() =~= q1);
        lemma_sum_nonneg(s1);
        lemma_div_sum_pair(sum_seq(s1), s.last(), d);
        lemma_div_is_ordered(sum_seq(s1) + s.last(), sum_seq(s), d);
    } else {
        assert(q =~= Seq::<int>::empty());
        lemma_div_pos_is_pos(0, d);
    }
}

/// Multiplying under a floor division by `d > 0` keeps a product of bounded
/// non-negative factors within the bound of the other factor.
pub proof fn lemma_scaled_product_bound(x: int, y: int, d: int)
    requires
        0 <= x <= d,
        0 <= y,
        d > 0,
    ensures
        0 <= x * y / d <= y,
{
    lemma_mul_nonnegative(x, y);
    lemma_div_pos_is_pos(x * y, d);
    lemma_mul_inequality(x, d, y);
    lemma_mul_is_commutative(d, y);
    lemma_div_is_ordered(x * y, d * y, d);
    vstd::arithmetic::div_mod::lemma_div_multiples_vanish(y, d);
}

} // verus!
