//! Unit tests for threshold derivation and the snap classifier.

use peer_trust::classify::{classify, derive_threshold, State, VOTE_WEIGHT};
use peer_trust::fixed::SCALE;

fn votes(yes: &[usize], n: usize) -> Vec<i64> {
    let mut v = vec![0i64; n];
    for &i in yes {
        v[i] = VOTE_WEIGHT;
    }
    v
}

#[test]
fn threshold_is_smallest_nonzero_entry() {
    let p = vec![0, 0, 0, 7 * SCALE / 10, 3 * SCALE / 10];
    assert_eq!(derive_threshold(&p), Some(3 * SCALE / 10));
}

#[test]
fn threshold_of_all_zero_pre_trust_is_undefined() {
    let p = vec![0i64, 0, 0];
    assert_eq!(derive_threshold(&p), None);
}

#[test]
fn threshold_of_empty_pre_trust_is_undefined() {
    assert_eq!(derive_threshold(&Vec::new()), None);
}

#[test]
fn threshold_ignores_zero_entries() {
    let p = vec![SCALE / 2, 0, SCALE / 100, 0];
    assert_eq!(derive_threshold(&p), Some(SCALE / 100));
}

#[test]
fn zero_over_zero_score_is_zero_and_unverified() {
    let s = vec![SCALE / 2, SCALE / 2];
    let (score, confidence, state) = classify(&votes(&[], 2), &votes(&[], 2), &s, 3 * SCALE / 10);
    assert_eq!(score, 0);
    assert_eq!(confidence, 0);
    assert_eq!(state, State::Unverified);
}

#[test]
fn balanced_votes_are_contested() {
    let s = vec![SCALE / 2, SCALE / 2];
    let (score, confidence, state) =
        classify(&votes(&[0], 2), &votes(&[1], 2), &s, 3 * SCALE / 10);
    assert_eq!(score, SCALE / 2);
    assert_eq!(confidence, SCALE);
    assert_eq!(state, State::Contested);
}

#[test]
fn unanimous_yes_is_endorsed() {
    let s = vec![SCALE / 2, SCALE / 2];
    let (score, confidence, state) =
        classify(&votes(&[0, 1], 2), &votes(&[], 2), &s, 3 * SCALE / 10);
    assert_eq!(score, SCALE);
    assert_eq!(confidence, SCALE);
    assert_eq!(state, State::Endorsed);
}

#[test]
fn unanimous_no_is_reported() {
    let s = vec![SCALE / 2, SCALE / 2];
    let (score, _, state) = classify(&votes(&[], 2), &votes(&[0, 1], 2), &s, 3 * SCALE / 10);
    assert_eq!(score, 0);
    assert_eq!(state, State::Reported);
}

#[test]
fn net_distrusted_peer_votes_count_nothing() {
    // Peer 0 is net-distrusted: its "no" vote must not weigh in.
    let s = vec![-SCALE, SCALE / 2];
    let (score, confidence, state) =
        classify(&votes(&[1], 2), &votes(&[0], 2), &s, 3 * SCALE / 10);
    assert_eq!(score, SCALE);
    assert_eq!(confidence, SCALE / 2);
    assert_eq!(state, State::Endorsed);
}

#[test]
fn only_the_exact_vote_weight_counts() {
    // Any value other than the vote weight acts as an abstention.
    let s = vec![SCALE / 2, SCALE / 2];
    let odd = vec![VOTE_WEIGHT - 1, VOTE_WEIGHT + 1];
    let (score, confidence, state) = classify(&odd, &votes(&[], 2), &s, 3 * SCALE / 10);
    assert_eq!(score, 0);
    assert_eq!(confidence, 0);
    assert_eq!(state, State::Unverified);
}

#[test]
fn low_confidence_is_unverified_whatever_the_votes() {
    let s = vec![SCALE / 10, SCALE / 10];
    let (_, confidence, state) =
        classify(&votes(&[0, 1], 2), &votes(&[], 2), &s, 3 * SCALE / 10);
    assert!(confidence <= 3 * SCALE / 10);
    assert_eq!(state, State::Unverified);
}

#[test]
fn rising_score_moves_the_state_forward() {
    // Hold the confidence fixed above the threshold and raise the yes
    // share: the verdict may only move forward through Reported,
    // Contested, Endorsed.
    let theta = 3 * SCALE / 10;
    let rank = |st: State| match st {
        State::Unverified => 0,
        State::Reported => 1,
        State::Contested => 2,
        State::Endorsed => 3,
    };
    // Ten peers of equal weight; k of them vote yes, the rest vote no.
    let n = 10usize;
    let s = vec![SCALE / 10; n];
    let mut last = 0;
    let mut last_score = -1i64;
    for k in 0..=n {
        let yes: Vec<usize> = (0..k).collect();
        let no: Vec<usize> = (k..n).collect();
        let (score, confidence, state) = classify(&votes(&yes, n), &votes(&no, n), &s, theta);
        assert_eq!(confidence, SCALE);
        assert!(score > last_score);
        assert!(rank(state) >= last);
        last = rank(state);
        last_score = score;
    }
    assert_eq!(last, 3);
}
