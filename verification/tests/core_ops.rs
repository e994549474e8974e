//! Unit tests for the matrix utilities and the input validator.

use peer_trust::fixed::SCALE;
use peer_trust::utils::{normalise, normalise_sqrt, transpose, vec_add, vec_scalar_mul};
use peer_trust::validate::{validate_overlap, validate_trust, ValidationError};

fn mat(rows: &[&[i64]]) -> Vec<Vec<i64>> {
    rows.iter().map(|r| r.to_vec()).collect()
}

#[test]
fn normalise_zero_row_returns_fallback_unchanged() {
    let row = vec![0i64, 0, 0, 0, 0];
    let fallback = vec![0i64, 0, 0, 7 * SCALE / 10, 3 * SCALE / 10];
    assert_eq!(normalise(&row, &fallback), fallback);
}

#[test]
fn normalise_single_entry_row_becomes_one_unit() {
    let row = vec![11 * SCALE, 0, 0, 0, 0];
    let fallback = vec![0i64; 5];
    assert_eq!(normalise(&row, &fallback), vec![SCALE, 0, 0, 0, 0]);
}

#[test]
fn normalise_divides_by_row_sum_exactly() {
    let row = vec![3 * SCALE, SCALE];
    let fallback = vec![0i64, 0];
    assert_eq!(normalise(&row, &fallback), vec![750_000_000, 250_000_000]);
}

#[test]
fn normalise_rounds_down() {
    // 1/3 and 2/3 of a unit, rounded toward zero.
    let row = vec![1i64, 2];
    let fallback = vec![0i64, 0];
    assert_eq!(normalise(&row, &fallback), vec![333_333_333, 666_666_666]);
}

#[test]
fn vec_add_is_elementwise() {
    let a = vec![1i64, -2, 30];
    let b = vec![10i64, 20, -5];
    assert_eq!(vec_add(&a, &b), vec![11, 18, 25]);
}

#[test]
fn vec_scalar_mul_scales_fixed_point() {
    let v = vec![SCALE, 2 * SCALE, SCALE / 2];
    // times 0.5
    assert_eq!(
        vec_scalar_mul(&v, SCALE / 2),
        vec![SCALE / 2, SCALE, SCALE / 4]
    );
}

#[test]
fn transpose_swaps_rows_and_columns() {
    let m = mat(&[&[1, 2, 3], &[4, 5, 6], &[7, 8, 9]]);
    let t = transpose(&m);
    assert_eq!(t, mat(&[&[1, 4, 7], &[2, 5, 8], &[3, 6, 9]]));
}

#[test]
fn normalise_sqrt_zero_vector_stays_zero() {
    let v = vec![0i64, 0, 0];
    assert_eq!(normalise_sqrt(&v), vec![0, 0, 0]);
}

#[test]
fn normalise_sqrt_rescales_to_unit_length() {
    // (3,4) has length 5: the result is (0.6, 0.8).
    let v = vec![3 * SCALE, 4 * SCALE];
    assert_eq!(normalise_sqrt(&v), vec![600_000_000, 800_000_000]);
}

#[test]
fn empty_matrix_is_valid() {
    let lt: Vec<Vec<i64>> = Vec::new();
    assert_eq!(validate_trust(&lt), Ok(()));
    assert_eq!(validate_overlap(&lt, &Vec::new()), Ok(()));
}

#[test]
fn validate_trust_accepts_zero_diagonal_nonnegative() {
    let lt = mat(&[&[0, 5, 1], &[2, 0, 0], &[0, 0, 0]]);
    assert_eq!(validate_trust(&lt), Ok(()));
}

#[test]
fn validate_trust_rejects_self_trust() {
    let lt = mat(&[&[0, 5, 1], &[2, 3, 0], &[0, 0, 0]]);
    assert_eq!(
        validate_trust(&lt),
        Err(ValidationError::SelfTrust { index: 1 })
    );
}

#[test]
fn validate_trust_rejects_negative_entry() {
    let lt = mat(&[&[0, 5, 1], &[2, 0, -4], &[0, 0, 0]]);
    assert_eq!(
        validate_trust(&lt),
        Err(ValidationError::NegativeEntry { row: 1, col: 2 })
    );
}

#[test]
fn validate_overlap_accepts_disjoint_opinions() {
    let lt = mat(&[&[0, 5], &[0, 0]]);
    let ld = mat(&[&[0, 0], &[3, 0]]);
    assert_eq!(validate_overlap(&lt, &ld), Ok(()));
}

#[test]
fn validate_overlap_rejects_double_opinion() {
    let lt = mat(&[&[0, 5], &[0, 0]]);
    let ld = mat(&[&[0, 2], &[0, 0]]);
    assert_eq!(
        validate_overlap(&lt, &ld),
        Err(ValidationError::Overlap { row: 0, col: 1 })
    );
}
