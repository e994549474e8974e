//! Vector and matrix utilities shared by every ranking algorithm: row
//! normalization with a zero-row fallback, transposition, and elementwise
//! addition and scaling, all over fixed-point values.

use vstd::prelude::*;
use crate::fixed::{
    ints_of, lemma_scaled_product_bound, lemma_sum_elem_bound, lemma_sum_take_all,
    lemma_sum_take_step, mat_of, sum_seq, SCALE,
};
use vstd::arithmetic::mul::{
    lemma_mul_inequality, lemma_mul_is_commutative, lemma_mul_nonnegative, lemma_mul_upper_bound,
};
use vstd::arithmetic::div_mod::lemma_div_pos_is_pos;

verus! {

/// The largest group size the engine accepts; keeps every 128-bit
/// intermediate comfortably inside its type.
pub const MAX_PEERS: usize = 100_000_000;

/// An `n` by `n` matrix of fixed-point rows.
pub open spec fn is_square(m: Seq<Vec<i64>>, n: int) -> bool {
    m.len() == n && forall|i: int| 0 <= i < m.len() ==> (#[trigger] m[i])@.len() == n
}

/// All entries of the matrix are non-negative.
pub open spec fn mat_nonneg(m: Seq<Vec<i64>>) -> bool {
    forall|i: int, j: int|
        0 <= i < m.len() && 0 <= j < m[i]@.len() ==> #[trigger] m[i]@[j] >= 0
}

/// All entries of the vector are non-negative.
pub open spec fn vec_nonneg(v: Seq<i64>) -> bool {
    forall|i: int| 0 <= i < v.len() ==> v[i] >= 0
}

/// All entries of the vector lie between 0 and `hi`.
pub open spec fn vec_bounded(v: Seq<i64>, hi: int) -> bool {
    forall|i: int| 0 <= i < v.len() ==> 0 <= #[trigger] v[i] <= hi
}

/// All entries of the matrix lie between 0 and `hi`.
pub open spec fn mat_bounded(m: Seq<Vec<i64>>, hi: int) -> bool {
    forall|i: int, j: int|
        0 <= i < m.len() && 0 <= j < m[i]@.len() ==> 0 <= #[trigger] m[i]@[j] <= hi
}

/// A five-entry row.
pub(crate) fn row5(a: i64, b: i64, c: i64, d: i64, e: i64) -> (r: Vec<i64>)
    ensures
        r@.len() == 5,
        r@[0] == a && r@[1] == b && r@[2] == c && r@[3] == d && r@[4] == e,
{
    let mut r: Vec<i64> = Vec::new();
    r.push(a);
    r.push(b);
    r.push(c);
    r.push(d);
    r.push(e);
    r
}

/// Row normalization: a row with positive mass is rescaled so that it sums
/// to (at most, by rounding) one unit; a row with no mass at all becomes the
/// fallback row instead of a division by zero.
pub open spec fn normalise_spec(row: Seq<int>, fallback: Seq<int>) -> Seq<int> {
    if sum_seq(row) == 0 {
        fallback
    } else {
        Seq::new(row.len(), |i: int| row[i] * SCALE / sum_seq(row))
    }
}

/// Row-normalizes `row`, falling back to `fallback` when the row has no
/// mass.
pub fn normalise(row: &Vec<i64>, fallback: &Vec<i64>) -> (r: Vec<i64>)
    requires
        row@.len() == fallback@.len(),
        row@.len() <= MAX_PEERS,
        vec_nonneg(row@),
    ensures
        r@.len() == row@.len(),
        ints_of(r@) == normalise_spec(ints_of(row@), ints_of(fallback@)),
        sum_seq(ints_of(row@)) == 0 ==> r@ == fallback@,
        sum_seq(ints_of(row@)) != 0 ==> vec_bounded(r@, SCALE as int),
{
    let ghost rs = ints_of(row@);
    proof {
        assert(forall|i: int| 0 <= i < rs.len() ==> #[trigger] rs[i] == row@[i] as int);
    }
    let n = row.len();
    let mut sum: u128 = 0;
    let mut j: usize = 0;
    while j < n
        invariant
            j <= n,
            n == row@.len() <= MAX_PEERS,
            vec_nonneg(row@),
            rs == ints_of(row@),
            forall|i: int| 0 <= i < rs.len() ==> #[trigger] rs[i] == row@[i] as int,
            sum as int == sum_seq(rs.take(j as int)),
            sum as int <= (j as int) * (i64::MAX as int),
        decreases n - j,
    {
        proof {
            lemma_sum_take_step(rs, j as int);
        }
        sum = sum + (row[j] as u128);
        j = j + 1;
    }
    proof {
        lemma_sum_take_all(rs);
    }
    if sum == 0 {
        let r = fallback.clone();
        proof {
            assert(ints_of(r@) =~= ints_of(fallback@));
        }
        return r;
    }
    let mut r: Vec<i64> = Vec::new();
    let mut i: usize = 0;
    while i < n
        invariant
            i <= n,
            n == row@.len() <= MAX_PEERS,
            vec_nonneg(row@),
            rs == ints_of(row@),
            forall|k: int| 0 <= k < rs.len() ==> #[trigger] rs[k] == row@[k] as int,
            sum as int == sum_seq(rs) && sum > 0,
            r@.len() == i,
            forall|k: int| 0 <= k < i ==> r@[k] as int == rs[k] * SCALE / sum_seq(rs),
            vec_bounded(r@, SCALE as int),
        decreases n - i,
    {
        proof {
            lemma_sum_elem_bound(rs, i as int);
            lemma_scaled_product_bound(rs[i as int], SCALE as int, sum as int);
        }
        let q: u128 = (row[i] as u128) * (SCALE as u128) / sum;
        r.push(q as i64);
        i = i + 1;
    }
    proof {
        assert(ints_of(r@) =~= normalise_spec(ints_of(row@), ints_of(fallback@)));
    }
    r
}

/// Swaps rows and columns of a square matrix.
pub fn transpose(m: &Vec<Vec<i64>>) -> (r: Vec<Vec<i64>>)
    requires
        is_square(m@, m@.len() as int),
    ensures
        r@.len() == m@.len(),
        is_square(r@, m@.len() as int),
        forall|i: int, j: int|
            0 <= i < m@.len() && 0 <= j < m@.len() ==> r@[i]@[j] == #[trigger] m@[j]@[i],
{
    let n = m.len();
    let mut r: Vec<Vec<i64>> = Vec::new();
    let mut i: usize = 0;
    while i < n
        invariant
            i <= n,
            n == m@.len(),
            is_square(m@, n as int),
            r@.len() == i,
            forall|a: int| 0 <= a < i ==> (#[trigger] r@[a])@.len() == n,
            forall|a: int, b: int|
                0 <= a < i && 0 <= b < n ==> r@[a]@[b] == #[trigger] m@[b]@[a],
        decreases n - i,
    {
        let mut row: Vec<i64> = Vec::new();
        let mut j: usize = 0;
        while j < n
            invariant
                j <= n,
                i < n,
                n == m@.len(),
                is_square(m@, n as int),
                row@.len() == j,
                forall|b: int| 0 <= b < j ==> row@[b] == #[trigger] m@[b]@[i as int],
            decreases n - j,
        {
            row.push(m[j][i]);
            j = j + 1;
        }
        r.push(row);
        i = i + 1;
    }
    r
}

/// The floor of the square root of a non-negative integer.
pub open spec fn sqrt_floor(n: int) -> int {
    choose|r: int| 0 <= r && #[trigger] (r * r) <= n < (r + 1) * (r + 1)
}

/// The floor of the square root exists and is characterized by its two
/// bounds; any value meeting them is the floor.
pub proof fn lemma_sqrt_floor(n: int)
    requires
        n >= 0,
    ensures
        0 <= sqrt_floor(n),
        sqrt_floor(n) * sqrt_floor(n) <= n,
        n < (sqrt_floor(n) + 1) * (sqrt_floor(n) + 1),
        forall|r: int|
            0 <= r && #[trigger] (r * r) <= n && n < (r + 1) * (r + 1) ==> r == sqrt_floor(n),
    decreases n,
{
    if n == 0 {
        assert(exists|r: int| 0 <= r && #[trigger] (r * r) <= n < (r + 1) * (r + 1)) by {
            assert(0 <= 0int && (0int * 0int) <= n < (0int + 1) * (0int + 1));
        }
    } else {
        lemma_sqrt_floor(n - 1);
        let p = sqrt_floor(n - 1);
        if (p + 1) * (p + 1) == n {
            let q = p + 1;
            assert(q * q <= n < (q + 1) * (q + 1)) by (nonlinear_arith)
                requires
                    q == p + 1,
                    (p + 1) * (p + 1) == n,
                    p >= 0,
            ;
            assert(exists|r: int| 0 <= r && #[trigger] (r * r) <= n < (r + 1) * (r + 1)) by {
                assert(0 <= q && (q * q) <= n < (q + 1) * (q + 1));
            }
        } else {
            assert(exists|r: int| 0 <= r && #[trigger] (r * r) <= n < (r + 1) * (r + 1)) by {
                assert(0 <= p && (p * p) <= n < (p + 1) * (p + 1));
            }
        }
    }
    let s = sqrt_floor(n);
    assert(0 <= s && (s * s) <= n < (s + 1) * (s + 1));
    assert forall|r: int|
        0 <= r && #[trigger] (r * r) <= n && n < (r + 1) * (r + 1) implies r == s by {
        if r < s {
            assert((r + 1) * (r + 1) <= s * s) by (nonlinear_arith)
                requires
                    0 <= r < s,
            ;
        }
        if s < r {
            assert((s + 1) * (s + 1) <= r * r) by (nonlinear_arith)
                requires
                    0 <= s < r,
            ;
        }
    }
}

/// The floor of the square root, by binary search.
fn isqrt(n: u128) -> (r: u128)
    ensures
        r as int == sqrt_floor(n as int),
        ((r as int) * (r as int)) <= n as int,
        (n as int) < ((r as int + 1) * (r as int + 1)),
{
    proof {
        lemma_sqrt_floor(n as int);
    }
    if n == 0 {
        proof {
            assert((0int * 0int) <= n as int && (n as int) < (0int + 1) * (0int + 1));
            assert(0int == sqrt_floor(n as int));
        }
        return 0;
    }
    let mut lo: u128 = 0;
    let mut hi: u128 = 0x1_0000_0000_0000_0000;
    while lo + 1 < hi
        invariant
            lo < hi,
            hi <= 0x1_0000_0000_0000_0000,
            ((lo as int) * (lo as int)) <= n as int,
            (n as int) < ((hi as int) * (hi as int)),
        decreases hi - lo,
    {
        let mid = lo + (hi - lo) / 2;
        proof {
            lemma_mul_upper_bound(mid as int, 0xFFFF_FFFF_FFFF_FFFF, mid as int, 0xFFFF_FFFF_FFFF_FFFF);
            lemma_mul_nonnegative(mid as int, mid as int);
        }
        if mid * mid <= n {
            lo = mid;
        } else {
            hi = mid;
        }
    }
    proof {
        lemma_sqrt_floor(n as int);
        assert(((lo as int) * (lo as int)) <= n as int);
        assert((n as int) < ((lo as int + 1) * (lo as int + 1)));
    }
    lo
}

/// The sum of the squares of a vector's entries.
pub open spec fn sum_squares(v: Seq<int>) -> int {
    sum_seq(Seq::new(v.len(), |i: int| v[i] * v[i]))
}

/// Normalization by vector length: each entry divided by the square root
/// of the sum of squares, or the zero vector when there is no mass.
pub open spec fn normalise_sqrt_spec(v: Seq<int>) -> Seq<int> {
    if sum_squares(v) == 0 {
        Seq::new(v.len(), |i: int| 0)
    } else {
        Seq::new(v.len(), |i: int| v[i] * SCALE / sqrt_floor(sum_squares(v)))
    }
}

/// Rescales a non-negative vector to (at most, by rounding) unit length,
/// or to the zero vector when it has no mass at all.
pub fn normalise_sqrt(vector: &Vec<i64>) -> (r: Vec<i64>)
    requires
        vector@.len() <= MAX_PEERS,
        vec_bounded(vector@, crate::engine::MAX_MASS as int),
    ensures
        r@.len() == vector@.len(),
        ints_of(r@) == normalise_sqrt_spec(ints_of(vector@)),
        vec_bounded(r@, SCALE as int),
{
    let ghost vm = ints_of(vector@);
    let ghost sq = Seq::new(vm.len(), |i: int| vm[i] * vm[i]);
    let n = vector.len();
    let mut ss: u128 = 0;
    let mut j: usize = 0;
    while j < n
        invariant
            j <= n,
            n == vector@.len() <= MAX_PEERS,
            vec_bounded(vector@, crate::engine::MAX_MASS as int),
            vm == ints_of(vector@),
            sq == Seq::new(vm.len(), |i: int| vm[i] * vm[i]),
            ss as int == sum_seq(sq.take(j as int)),
            ss as int <= (j as int) * 1000000000000000000000000000000,
        decreases n - j,
    {
        proof {
            lemma_sum_take_step(sq, j as int);
            assert(vm[j as int] == vector@[j as int] as int);
            assert(crate::engine::MAX_MASS as int == 1000000000000000);
            assert(0 <= vm[j as int] <= 1000000000000000);
            lemma_mul_upper_bound(vm[j as int], 1000000000000000, vm[j as int], 1000000000000000);
            lemma_mul_nonnegative(vm[j as int], vm[j as int]);
            assert((j as int + 1) * 1000000000000000000000000000000 == (j as int)
                * 1000000000000000000000000000000 + 1000000000000000000000000000000) by {
                vstd::arithmetic::mul::lemma_mul_is_distributive_add_other_way(
                    1000000000000000000000000000000,
                    j as int,
                    1,
                );
            }
            assert((j as int + 1) * 1000000000000000000000000000000 <= (MAX_PEERS as int)
                * 1000000000000000000000000000000) by {
                lemma_mul_inequality(j as int + 1, MAX_PEERS as int, 1000000000000000000000000000000);
            }
        }
        ss = ss + (vector[j] as u128) * (vector[j] as u128);
        j = j + 1;
    }
    proof {
        lemma_sum_take_all(sq);
    }
    let mut r: Vec<i64> = Vec::new();
    if ss == 0 {
        let mut z: usize = 0;
        while z < n
            invariant
                z <= n,
                r@.len() == z,
                forall|k: int| 0 <= k < z ==> r@[k] == 0,
            decreases n - z,
        {
            r.push(0i64);
            z = z + 1;
        }
        proof {
            assert(ints_of(r@) =~= normalise_sqrt_spec(ints_of(vector@)));
        }
        return r;
    }
    let t = isqrt(ss);
    proof {
        assert(t >= 1) by {
            if t == 0 {
                assert((ss as int) < (0 + 1) * (0 + 1));
            }
        }
    }
    let mut i: usize = 0;
    while i < n
        invariant
            i <= n,
            n == vector@.len(),
            vec_bounded(vector@, crate::engine::MAX_MASS as int),
            vm == ints_of(vector@),
            sq == Seq::new(vm.len(), |k: int| vm[k] * vm[k]),
            ss as int == sum_seq(sq) && ss > 0,
            t >= 1,
            t as int == sqrt_floor(ss as int),
            ((t as int) * (t as int)) <= ss as int,
            (ss as int) < ((t as int + 1) * (t as int + 1)),
            r@.len() == i,
            forall|k: int| 0 <= k < i ==> r@[k] as int == vm[k] * SCALE / sqrt_floor(ss as int),
            vec_bounded(r@, SCALE as int),
        decreases n - i,
    {
        proof {
            let x = vm[i as int];
            assert(x == vector@[i as int] as int);
            assert(sq[i as int] == x * x);
            assert forall|k: int| 0 <= k < sq.len() implies #[trigger] sq[k] >= 0 by {
                lemma_mul_nonnegative(vm[k], vm[k]);
            }
            lemma_sum_elem_bound(sq, i as int);
            assert(x * x <= ss as int);
            assert(x <= t as int) by (nonlinear_arith)
                requires
                    x >= 0,
                    t as int >= 0,
                    x * x <= ss as int,
                    (ss as int) < (t as int + 1) * (t as int + 1),
            ;
            lemma_scaled_product_bound(x, SCALE as int, t as int);
            lemma_mul_is_commutative(x, SCALE as int);
        }
        let q: u128 = (vector[i] as u128) * (SCALE as u128) / t;
        r.push(q as i64);
        i = i + 1;
    }
    proof {
        assert(ints_of(r@) =~= normalise_sqrt_spec(ints_of(vector@)));
    }
    r
}

/// Adds two vectors elementwise.
pub fn vec_add(s: &Vec<i64>, y: &Vec<i64>) -> (r: Vec<i64>)
    requires
        s@.len() == y@.len(),
        forall|i: int|
            0 <= i < s@.len() ==> i64::MIN <= #[trigger] (s@[i] + y@[i]) <= i64::MAX,
    ensures
        r@.len() == s@.len(),
        forall|i: int| 0 <= i < s@.len() ==> r@[i] == #[trigger] (s@[i] + y@[i]),
{
    let n = s.len();
    let mut r: Vec<i64> = Vec::new();
    let mut i: usize = 0;
    while i < n
        invariant
            i <= n,
            n == s@.len() == y@.len(),
            forall|k: int|
                0 <= k < n ==> i64::MIN <= #[trigger] (s@[k] + y@[k]) <= i64::MAX,
            r@.len() == i,
            forall|k: int| 0 <= k < i ==> r@[k] == #[trigger] (s@[k] + y@[k]),
        decreases n - i,
    {
        r.push(s[i] + y[i]);
        i = i + 1;
    }
    r
}

/// Scales a vector of non-negative fixed-point values by a non-negative
/// fixed-point factor, rounding each product down.
pub fn vec_scalar_mul(s: &Vec<i64>, y: i64) -> (r: Vec<i64>)
    requires
        y >= 0,
        vec_nonneg(s@),
        forall|i: int| 0 <= i < s@.len() ==> #[trigger] (s@[i] * y) / (SCALE as int) <= i64::MAX,
    ensures
        r@.len() == s@.len(),
        forall|i: int|
            0 <= i < s@.len() ==> r@[i] as int == #[trigger] (s@[i] * y) / (SCALE as int),
        vec_nonneg(r@),
{
    let n = s.len();
    let mut r: Vec<i64> = Vec::new();
    let mut i: usize = 0;
    while i < n
        invariant
            i <= n,
            y >= 0,
            n == s@.len(),
            vec_nonneg(s@),
            forall|k: int|
                0 <= k < n ==> #[trigger] (s@[k] * y) / (SCALE as int) <= i64::MAX,
            r@.len() == i,
            forall|k: int|
                0 <= k < i ==> r@[k] as int == #[trigger] (s@[k] * y) / (SCALE as int),
            vec_nonneg(r@),
        decreases n - i,
    {
        proof {
            lemma_mul_nonnegative(s@[i as int] as int, y as int);
            lemma_div_pos_is_pos(s@[i as int] * y, SCALE as int);
        }
        let q: u128 = (s[i] as u128) * (y as u128) / (SCALE as u128);
        r.push(q as i64);
        i = i + 1;
    }
    r
}

} // verus!
