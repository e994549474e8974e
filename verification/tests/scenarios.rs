//! End-to-end scenarios for the trust/distrust engine: a worked example,
//! a sybil collusion ring, and a sleeping agent that turns hostile.

use peer_trust::classify::{classify, derive_threshold, State, VOTE_WEIGHT};
use peer_trust::engine::{combine, propagate_distrust, propagate_trust};
use peer_trust::fixed::SCALE;
use peer_trust::validate::{validate_overlap, validate_trust};

const ALPHA: i64 = SCALE / 2;
const ITERS: u64 = 30;

fn mat(rows: &[&[i64]]) -> Vec<Vec<i64>> {
    rows.iter()
        .map(|r| r.iter().map(|x| x * SCALE).collect())
        .collect()
}

fn votes(yes: &[usize]) -> Vec<i64> {
    let mut v = vec![0i64; 5];
    for &i in yes {
        v[i] = VOTE_WEIGHT;
    }
    v
}

fn pre_trust() -> Vec<i64> {
    vec![0, 0, 0, 7 * SCALE / 10, 3 * SCALE / 10]
}

#[test]
fn functional_case() {
    let pre = pre_trust();
    let threshold = derive_threshold(&pre).unwrap();
    assert_eq!(threshold, 3 * SCALE / 10);

    let lt = mat(&[
        &[0, 0, 1, 0, 0],
        &[0, 0, 0, 0, 0],
        &[0, 0, 0, 0, 0],
        &[11, 0, 0, 0, 0],
        &[0, 10, 0, 0, 0],
    ]);
    let ld = mat(&[
        &[0, 0, 0, 0, 0],
        &[0, 0, 10, 0, 0],
        &[0, 0, 0, 0, 0],
        &[0, 1, 0, 0, 0],
        &[10, 0, 0, 0, 0],
    ]);
    assert_eq!(validate_trust(&lt), Ok(()));
    assert_eq!(validate_trust(&ld), Ok(()));
    assert_eq!(validate_overlap(&lt, &ld), Ok(()));

    let s = propagate_trust(&lt, &pre, ALPHA, ITERS);
    // The fixed 30-round budget lands on these exact values.
    assert_eq!(
        s,
        vec![208955223, 89552238, 104477611, 417910447, 179104477]
    );
    let sd = propagate_distrust(&ld, &s);
    let fin = combine(&s, &sd);
    // Peer 4 took a hit relative to peer 3.
    assert!(fin[4] < fin[3]);
    // Peer 1 is net-distrusted outright.
    assert!(fin[1] < 0);

    let (score1, confidence1, state1) =
        classify(&votes(&[0, 3]), &votes(&[2]), &fin, threshold);
    assert_eq!(state1, State::Endorsed);
    assert!(confidence1 > threshold);

    let (score2, _, state2) = classify(&votes(&[4]), &votes(&[2, 3]), &fin, threshold);
    assert!(score2 < score1);
    assert!(state2 == State::Reported || state2 == State::Unverified);
}

#[test]
fn propagation_is_deterministic() {
    let pre = pre_trust();
    let lt = mat(&[
        &[0, 0, 1, 0, 0],
        &[0, 0, 0, 0, 0],
        &[0, 0, 0, 0, 0],
        &[11, 0, 0, 0, 0],
        &[0, 10, 0, 0, 0],
    ]);
    let a = propagate_trust(&lt, &pre, ALPHA, ITERS);
    let b = propagate_trust(&lt, &pre, ALPHA, ITERS);
    assert_eq!(a, b);
}

#[test]
fn trust_scores_stay_within_one_unit() {
    // The pre-trust vector sums to one unit, so every score does too.
    let pre = pre_trust();
    let lt = mat(&[
        &[0, 10, 10, 0, 0],
        &[10, 0, 10, 0, 0],
        &[10, 10, 0, 0, 0],
        &[0, 0, 0, 0, 0],
        &[0, 10, 0, 0, 0],
    ]);
    let s = propagate_trust(&lt, &pre, ALPHA, ITERS);
    for &x in s.iter() {
        assert!(0 <= x && x <= SCALE);
    }
}

#[test]
fn single_accuser_distrust_never_exceeds_its_own_trust() {
    // Only peer 4 accuses; what lands on anyone is bounded by peer 4's
    // own trust score.
    let pre = pre_trust();
    let lt = mat(&[
        &[0, 0, 1, 0, 0],
        &[0, 0, 0, 0, 0],
        &[0, 0, 0, 0, 0],
        &[11, 0, 0, 0, 0],
        &[0, 10, 0, 0, 0],
    ]);
    let ld = mat(&[
        &[0, 0, 0, 0, 0],
        &[0, 0, 0, 0, 0],
        &[0, 0, 0, 0, 0],
        &[0, 0, 0, 0, 0],
        &[7, 0, 3, 0, 0],
    ]);
    let s = propagate_trust(&lt, &pre, ALPHA, ITERS);
    let sd = propagate_distrust(&ld, &s);
    for &d in sd.iter() {
        assert!(0 <= d && d <= s[4]);
    }
    // The accusation splits 0.7/0.3 of the accuser's score.
    assert_eq!(sd[0], 700_000_000 * s[4] / SCALE);
    assert_eq!(sd[2], 300_000_000 * s[4] / SCALE);
    assert_eq!(sd[1], 0);
}

#[test]
fn sybil_case() {
    let pre = pre_trust();
    let threshold = derive_threshold(&pre).unwrap();
    let lt = mat(&[
        &[0, 10, 10, 0, 0],
        &[10, 0, 10, 0, 0],
        &[10, 10, 0, 0, 0],
        &[0, 0, 0, 0, 0],
        &[0, 10, 0, 0, 0],
    ]);
    let ld = mat(&[
        &[0, 0, 0, 10, 0],
        &[0, 0, 0, 10, 0],
        &[0, 0, 0, 10, 0],
        &[10, 10, 10, 0, 0],
        &[0, 0, 0, 0, 0],
    ]);
    assert_eq!(validate_overlap(&lt, &ld), Ok(()));
    let s = propagate_trust(&lt, &pre, ALPHA, ITERS);
    // The ring cannot inflate itself past the pre-trusted peers: each
    // colluder stays below both anchored peers.
    for i in 0..3 {
        assert!(s[i] < s[3]);
        assert!(s[i] < s[4]);
    }
    // Total mass stays within the pre-trust unit.
    assert!(s.iter().sum::<i64>() <= SCALE);

    let sd = propagate_distrust(&ld, &s);
    let fin = combine(&s, &sd);
    // The honest pair's counter-accusations leave the whole ring net-distrusted.
    for i in 0..3 {
        assert!(fin[i] < 0);
    }
    let (_, _, state1) = classify(&votes(&[0, 1, 2]), &votes(&[3, 4]), &fin, threshold);
    assert_eq!(state1, State::Reported);
    let (_, _, state2) = classify(&votes(&[3, 4]), &votes(&[]), &fin, threshold);
    assert_eq!(state2, State::Endorsed);
}

#[test]
fn sleeping_agent_case() {
    let pre = pre_trust();
    let threshold = derive_threshold(&pre).unwrap();

    // Before activation: peers 0 and 1 have no opinions in or out, so
    // they hold exactly no reputation.
    let lt1 = mat(&[
        &[0, 0, 0, 0, 0],
        &[0, 0, 0, 0, 0],
        &[0, 0, 0, 0, 0],
        &[0, 0, 10, 0, 10],
        &[0, 0, 10, 10, 0],
    ]);
    let ld1 = mat(&[
        &[0, 0, 0, 0, 0],
        &[0, 0, 0, 0, 0],
        &[0, 0, 0, 0, 0],
        &[10, 10, 0, 0, 0],
        &[10, 10, 0, 0, 0],
    ]);
    assert_eq!(validate_overlap(&lt1, &ld1), Ok(()));
    let s1 = propagate_trust(&lt1, &pre, ALPHA, ITERS);
    assert_eq!(s1[0], 0);
    assert_eq!(s1[1], 0);
    let sd1 = propagate_distrust(&ld1, &s1);
    // Peer 2 is trusted and accused by nobody in this round.
    assert_eq!(sd1[2], 0);
    let fin1 = combine(&s1, &sd1);

    let (_, c1, state1) = classify(&votes(&[]), &votes(&[]), &fin1, threshold);
    assert_eq!(c1, 0);
    assert_eq!(state1, State::Unverified);
    let (_, _, state2) = classify(&votes(&[2, 3, 4]), &votes(&[]), &fin1, threshold);
    assert_eq!(state2, State::Endorsed);

    // Second round, same opinions: peer 2 endorses one claim alone; its
    // score is real but its lone voice is not confident enough.
    let (_, _, state3) = classify(&votes(&[2]), &votes(&[]), &fin1, threshold);
    assert_eq!(state3, State::Unverified);
    let (_, _, state4) = classify(&votes(&[3, 4]), &votes(&[2]), &fin1, threshold);
    assert_eq!(state4, State::Endorsed);

    // After activation: trust in peer 2 is withdrawn and the anchored
    // pair accuses all three others; the one-hop distrust run reflects
    // that immediately, with no memory of earlier rounds.
    let lt3 = mat(&[
        &[0, 0, 0, 0, 0],
        &[0, 0, 0, 0, 0],
        &[0, 0, 0, 0, 0],
        &[0, 0, 0, 0, 10],
        &[0, 0, 0, 10, 0],
    ]);
    let ld3 = mat(&[
        &[0, 0, 0, 0, 0],
        &[0, 0, 0, 0, 0],
        &[0, 0, 0, 0, 0],
        &[10, 10, 10, 0, 0],
        &[10, 10, 10, 0, 0],
    ]);
    assert_eq!(validate_overlap(&lt3, &ld3), Ok(()));
    let s3 = propagate_trust(&lt3, &pre, ALPHA, ITERS);
    let sd3 = propagate_distrust(&ld3, &s3);
    assert!(sd3[2] > 0);
    let fin3 = combine(&s3, &sd3);
    assert!(fin3[2] < 0);

    let (_, _, state5) = classify(&votes(&[2]), &votes(&[3, 4]), &fin3, threshold);
    assert_eq!(state5, State::Reported);
    let (_, _, state6) = classify(&votes(&[3, 4]), &votes(&[2]), &fin3, threshold);
    assert_eq!(state6, State::Endorsed);
}
