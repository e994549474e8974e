//! Claim ("snap") classification: turns one claim's peer vote vectors and
//! the peers' final signed reputation into a score, a confidence, and a
//! four-way verdict against a data-derived threshold.

use vstd::prelude::*;
use crate::fixed::{
    lemma_scaled_product_bound, lemma_sum_nonneg, lemma_sum_pointwise_le, lemma_sum_take_all,
    lemma_sum_take_le, lemma_sum_take_step, sum_seq, SCALE,
};

verus! {

/// The weight a peer casts to endorse or dispute one claim; anything else
/// counts as abstaining.
pub const VOTE_WEIGHT: i64 = 50 * SCALE;

/// The verdict on one claim.
#[derive(Debug, Clone, Copy, PartialEq, Eq, Structural)]
pub enum State {
    Reported,
    Contested,
    Endorsed,
    Unverified,
}

/// The reputation mass behind one side of a claim: every peer with a
/// non-negative reputation that cast [`VOTE_WEIGHT`] on this side
/// contributes its reputation score; net-distrusted peers contribute
/// nothing, whatever they voted.
pub open spec fn vote_mass(votes: Seq<i64>, rep: Seq<i64>) -> int {
    sum_seq(
        Seq::new(
            rep.len(),
            |i: int| if rep[i] >= 0 && votes[i] == VOTE_WEIGHT {
                rep[i] as int
            } else {
                0
            },
        ),
    )
}

/// The total reputation mass of the peers allowed to vote (those with a
/// non-negative reputation): an upper bound on either side's vote mass.
pub open spec fn pos_mass(rep: Seq<i64>) -> int {
    sum_seq(Seq::new(rep.len(), |i: int| if rep[i] >= 0 {
        rep[i] as int
    } else {
        0
    }))
}

/// The claim score: the endorsing share of the total vote mass, with the
/// 0/0 case defined to be 0 rather than an error.
pub open spec fn score_spec(num: int, den: int) -> int {
    if num + den == 0 {
        0
    } else {
        num * SCALE / (num + den)
    }
}

/// The four-way verdict, checked in this order: too little confidence is
/// `Unverified`; then the score decides between `Reported`, `Contested`
/// and `Endorsed`, with `1 - threshold` as the upper cut.
pub open spec fn state_spec(score: int, confidence: int, threshold: int) -> State {
    if confidence <= threshold {
        State::Unverified
    } else if score <= threshold {
        State::Reported
    } else if score <= SCALE - threshold {
        State::Contested
    } else {
        State::Endorsed
    }
}

/// The position of a verdict in the forward order `Reported`, `Contested`,
/// `Endorsed`; `Unverified` sits below all three.
pub open spec fn state_rank(st: State) -> int {
    match st {
        State::Unverified => 0,
        State::Reported => 1,
        State::Contested => 2,
        State::Endorsed => 3,
    }
}

/// Classification monotonicity: with the confidence held fixed above the
/// threshold, raising the score can only move the verdict forward in the
/// order `Reported`, then `Contested`, then `Endorsed`, never backward.
pub proof fn lemma_state_monotone(score1: int, score2: int, confidence: int, threshold: int)
    requires
        confidence > threshold,
        score1 <= score2,
    ensures
        state_rank(state_spec(score1, confidence, threshold)) <= state_rank(
            state_spec(score2, confidence, threshold),
        ),
{
}

/// Derives the classification threshold from the pre-trust vector: the
/// smallest non-zero entry. When every entry is zero the threshold is
/// undefined and `None` is returned, so a caller is told explicitly
/// instead of receiving an extreme sentinel.
pub fn derive_threshold(pre_trust: &Vec<i64>) -> (r: Option<i64>)
    ensures
        (r is None) <==> (forall|i: int| 0 <= i < pre_trust@.len() ==> pre_trust@[i] == 0),
        r matches Some(m) ==> exists|i: int|
            0 <= i < pre_trust@.len() && pre_trust@[i] == m && m != 0,
        r matches Some(m) ==> forall|i: int|
            0 <= i < pre_trust@.len() && pre_trust@[i] != 0 ==> m <= #[trigger] pre_trust@[i],
{
    let n = pre_trust.len();
    let mut found: Option<i64> = None;
    let mut i: usize = 0;
    while i < n
        invariant
            i <= n,
            n == pre_trust@.len(),
            (found is None) <==> (forall|k: int| 0 <= k < i ==> pre_trust@[k] == 0),
            found matches Some(m) ==> exists|k: int| 0 <= k < i && pre_trust@[k] == m && m != 0,
            found matches Some(m) ==> forall|k: int|
                0 <= k < i && pre_trust@[k] != 0 ==> m <= #[trigger] pre_trust@[k],
        decreases n - i,
    {
        let x = pre_trust[i];
        if x != 0 {
            match found {
                None => {
                    found = Some(x);
                },
                Some(m) => {
                    if x < m {
                        found = Some(x);
                    }
                },
            }
        }
        i = i + 1;
    }
    found
}

/// Classifies one claim: filters out net-distrusted peers, weighs the
/// endorsing and disputing votes by the voters' reputation, and maps the
/// resulting score and confidence to a verdict.
///
/// Returns `(score, confidence, state)`.
pub fn classify(st: &Vec<i64>, sd: &Vec<i64>, s: &Vec<i64>, threshold: i64) -> (r: (i64, i64, State))
    requires
        st@.len() == s@.len(),
        sd@.len() == s@.len(),
        2 * pos_mass(s@) <= i64::MAX,
        0 <= threshold <= SCALE,
    ensures
        r.0 == score_spec(vote_mass(st@, s@), vote_mass(sd@, s@)),
        r.1 == vote_mass(st@, s@) + vote_mass(sd@, s@),
        r.2 == state_spec(
            score_spec(vote_mass(st@, s@), vote_mass(sd@, s@)),
            vote_mass(st@, s@) + vote_mass(sd@, s@),
            threshold as int,
        ),
        0 <= r.0 <= SCALE,
        0 <= r.1,
{
    let n = s.len();
    let ghost numm = Seq::new(
        s@.len(),
        |i: int| if s@[i] >= 0 && st@[i] == VOTE_WEIGHT {
            s@[i] as int
        } else {
            0
        },
    );
    let ghost denm = Seq::new(
        s@.len(),
        |i: int| if s@[i] >= 0 && sd@[i] == VOTE_WEIGHT {
            s@[i] as int
        } else {
            0
        },
    );
    let ghost posm = Seq::new(s@.len(), |i: int| if s@[i] >= 0 {
        s@[i] as int
    } else {
        0
    });
    proof {
        lemma_sum_nonneg(posm);
    }
    let mut num: i64 = 0;
    let mut den: i64 = 0;
    let mut i: usize = 0;
    while i < n
        invariant
            i <= n,
            n == s@.len() == st@.len() == sd@.len(),
            numm == Seq::new(
                s@.len(),
                |k: int| if s@[k] >= 0 && st@[k] == VOTE_WEIGHT {
                    s@[k] as int
                } else {
                    0
                },
            ),
            denm == Seq::new(
                s@.len(),
                |k: int| if s@[k] >= 0 && sd@[k] == VOTE_WEIGHT {
                    s@[k] as int
                } else {
                    0
                },
            ),
            posm == Seq::new(s@.len(), |k: int| if s@[k] >= 0 {
                s@[k] as int
            } else {
                0
            }),
            2 * pos_mass(s@) <= i64::MAX,
            pos_mass(s@) == sum_seq(posm),
            num as int == sum_seq(numm.take(i as int)),
            den as int == sum_seq(denm.take(i as int)),
            0 <= num as int <= sum_seq(posm.take(i as int)),
            0 <= den as int <= sum_seq(posm.take(i as int)),
        decreases n - i,
    {
        proof {
            lemma_sum_take_step(numm, i as int);
            lemma_sum_take_step(denm, i as int);
            lemma_sum_take_step(posm, i as int);
            lemma_sum_take_le(posm, i as int + 1);
        }
        if s[i] >= 0 {
            if st[i] == VOTE_WEIGHT {
                num = num + s[i];
            }
            if sd[i] == VOTE_WEIGHT {
                den = den + s[i];
            }
        }
        i = i + 1;
    }
    proof {
        lemma_sum_take_all(numm);
        lemma_sum_take_all(denm);
        lemma_sum_take_all(posm);
        lemma_sum_take_le(posm, n as int);
        assert(num as int == vote_mass(st@, s@));
        assert(den as int == vote_mass(sd@, s@));
    }
    let total = num + den;
    let score: i64 = if total == 0 {
        0
    } else {
        proof {
            lemma_scaled_product_bound(num as int, SCALE as int, total as int);
            vstd::arithmetic::mul::lemma_mul_is_commutative(num as int, SCALE as int);
        }
        ((num as u128) * (SCALE as u128) / (total as u128)) as i64
    };
    let state = if total <= threshold {
        State::Unverified
    } else if score <= threshold {
        State::Reported
    } else if score <= SCALE - threshold {
        State::Contested
    } else {
        State::Endorsed
    };
    (score, total, state)
}

} // verus!
