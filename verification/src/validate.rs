//! Structural validation of opinion matrices. Every invariant is checked
//! before any normalization or propagation runs, and a violation is
//! reported as a structured error instead of corrupting the computation.

use vstd::prelude::*;
use crate::utils::{is_square, mat_nonneg};

verus! {

/// A structural violation in an opinion matrix, with the offending indices.
#[derive(Debug, Clone, Copy, PartialEq, Eq, Structural)]
pub enum ValidationError {
    /// A peer holds an opinion about itself: the diagonal entry at `index`
    /// is non-zero.
    SelfTrust { index: usize },
    /// An opinion magnitude is negative.
    NegativeEntry { row: usize, col: usize },
    /// A pair carries both a trust and a distrust opinion at once.
    Overlap { row: usize, col: usize },
}

/// No peer gives an opinion about itself.
pub open spec fn zero_diagonal(m: Seq<Vec<i64>>) -> bool {
    forall|i: int| 0 <= i < m.len() ==> (#[trigger] m[i])@[i] == 0
}

/// For every pair, at most one of the trust and distrust entries is
/// non-zero.
pub open spec fn no_overlap(t: Seq<Vec<i64>>, d: Seq<Vec<i64>>) -> bool {
    forall|i: int, j: int| #![trigger t[i]@[j], d[i]@[j]]
        0 <= i < t.len() && 0 <= j < t[i]@.len() ==> (t[i]@[j] == 0 || d[i]@[j] == 0)
}

/// A structurally sound opinion matrix: non-negative everywhere and silent
/// on the diagonal.
pub open spec fn opinions_ok(m: Seq<Vec<i64>>) -> bool {
    mat_nonneg(m) && zero_diagonal(m)
}

/// Checks that an opinion matrix has no self-opinion and no negative
/// entry. Returns the first violation in row-major scan order.
pub fn validate_trust(lt: &Vec<Vec<i64>>) -> (r: Result<(), ValidationError>)
    requires
        is_square(lt@, lt@.len() as int),
    ensures
        r is Ok <==> opinions_ok(lt@),
        r matches Err(ValidationError::SelfTrust { index }) ==> index < lt@.len() && lt@[
            index as int
        ]@[index as int] != 0,
        r matches Err(ValidationError::NegativeEntry { row, col }) ==> row < lt@.len() && col
            < lt@.len() && lt@[row as int]@[col as int] < 0,
        !(r matches Err(ValidationError::Overlap { row, col })),
{
    let n = lt.len();
    let mut i: usize = 0;
    while i < n
        invariant
            i <= n,
            n == lt@.len(),
            is_square(lt@, n as int),
            forall|a: int| 0 <= a < i ==> (#[trigger] lt@[a])@[a] == 0,
            forall|a: int, b: int|
                0 <= a < i && 0 <= b < n ==> #[trigger] lt@[a]@[b] >= 0,
        decreases n - i,
    {
        let mut j: usize = 0;
        while j < n
            invariant
                j <= n,
                i < n,
                n == lt@.len(),
                is_square(lt@, n as int),
                i < j ==> lt@[i as int]@[i as int] == 0,
                forall|b: int| 0 <= b < j ==> #[trigger] lt@[i as int]@[b] >= 0,
            decreases n - j,
        {
            if i == j && lt[i][j] != 0 {
                return Err(ValidationError::SelfTrust { index: i });
            }
            if lt[i][j] < 0 {
                return Err(ValidationError::NegativeEntry { row: i, col: j });
            }
            j = j + 1;
        }
        i = i + 1;
    }
    Ok(())
}

/// Checks that no pair holds a trust and a distrust opinion at the same
/// time. Returns the first overlapping pair in row-major scan order.
pub fn validate_overlap(lt: &Vec<Vec<i64>>, ld: &Vec<Vec<i64>>) -> (r: Result<
    (),
    ValidationError,
>)
    requires
        is_square(lt@, lt@.len() as int),
        is_square(ld@, lt@.len() as int),
    ensures
        r is Ok <==> no_overlap(lt@, ld@),
        r matches Err(ValidationError::Overlap { row, col }) ==> row < lt@.len() && col
            < lt@.len() && lt@[row as int]@[col as int] != 0 && ld@[row as int]@[col as int] != 0,
        r is Err ==> r matches Err(ValidationError::Overlap { .. }),
{
    let n = lt.len();
    let mut i: usize = 0;
    while i < n
        invariant
            i <= n,
            n == lt@.len(),
            is_square(lt@, n as int),
            is_square(ld@, n as int),
            forall|a: int, b: int| #![trigger lt@[a]@[b], ld@[a]@[b]]
                0 <= a < i && 0 <= b < n ==> (lt@[a]@[b] == 0 || ld@[a]@[b] == 0),
        decreases n - i,
    {
        let mut j: usize = 0;
        while j < n
            invariant
                j <= n,
                i < n,
                n == lt@.len(),
                is_square(lt@, n as int),
                is_square(ld@, n as int),
                forall|b: int| #![trigger lt@[i as int]@[b], ld@[i as int]@[b]]
                    0 <= b < j ==> (lt@[i as int]@[b] == 0 || ld@[i as int]@[b] == 0),
            decreases n - j,
        {
            let trust_zero = lt[i][j] == 0;
            let distrust_zero = ld[i][j] == 0;
            if !trust_zero && !distrust_zero {
                return Err(ValidationError::Overlap { row: i, col: j });
            }
            j = j + 1;
        }
        i = i + 1;
    }
    Ok(())
}

} // verus!
