//! A plain PageRank-style ranking over the same fixed-point machinery as
//! the trust engine: rows normalized against the pre-trust prior, a light
//! damping toward it, and a fixed round budget.

use vstd::prelude::*;
use crate::engine::{power_iteration, power_spec, MAX_MASS};
use crate::fixed::{ints_of, mat_of, sum_seq, SCALE};
use crate::utils::{is_square, mat_nonneg, row5, vec_nonneg, MAX_PEERS};
use vstd::math::max;

verus! {

/// The share of every round that comes from the pre-trust prior.
pub const DAMPENING_AMOUNT: i64 = 200_000_000;

/// The fixed number of rounds of one ranking.
pub const NUM_ITER: u64 = 50;

/// One ranking run: `am` row-normalized against `pre_trust`, iterated from
/// `seed` with the module's damping for its fixed number of rounds.
fn run(am: &Vec<Vec<i64>>, pre_trust: &Vec<i64>, seed: &Vec<i64>) -> (r: Vec<i64>)
    requires
        is_square(am@, am@.len() as int),
        mat_nonneg(am@),
        pre_trust@.len() == am@.len(),
        seed@.len() == am@.len(),
        vec_nonneg(pre_trust@),
        vec_nonneg(seed@),
        am@.len() <= MAX_PEERS,
        sum_seq(ints_of(pre_trust@)) <= MAX_MASS,
        sum_seq(ints_of(seed@)) <= MAX_MASS,
        forall|i: int|
            0 <= i < am@.len() ==> sum_seq(#[trigger] mat_of(am@)[i]) > 0 || sum_seq(
                ints_of(pre_trust@),
            ) <= SCALE,
    ensures
        r@.len() == am@.len(),
        ints_of(r@) == power_spec(
            mat_of(am@),
            ints_of(pre_trust@),
            ints_of(seed@),
            DAMPENING_AMOUNT as int,
            NUM_ITER as nat,
        ),
        vec_nonneg(r@),
        forall|i: int|
            0 <= i < r@.len() ==> r@[i] as int <= max(
                sum_seq(ints_of(seed@)),
                sum_seq(ints_of(pre_trust@)),
            ),
{
    power_iteration(am, pre_trust, seed, DAMPENING_AMOUNT, NUM_ITER)
}

/// Ranks the module's fixed example graph, flowing weight from hubs to
/// authorities, and returns the final score of each of its five peers.
pub fn run_job() -> (r: Vec<i64>)
    ensures
        r@.len() == 5,
        vec_nonneg(r@),
{
    let s: i64 = SCALE;
    let mut am: Vec<Vec<i64>> = Vec::new();
    am.push(row5(0, 0, s, s, s));
    am.push(row5(0, 0, 0, s, 0));
    am.push(row5(s, 0, 0, s, s));
    am.push(row5(0, 0, 0, 0, s));
    am.push(row5(0, s, s, 0, 0));
    let pre_trust = row5(0, 0, 0, 5 * s, 5 * s);
    let seed = row5(s, 4 * s, s, s, s);
    proof {
        lemma_row_sum(am@[0]@);
        lemma_row_sum(am@[1]@);
        lemma_row_sum(am@[2]@);
        lemma_row_sum(am@[3]@);
        lemma_row_sum(am@[4]@);
        lemma_row_sum(pre_trust@);
        lemma_row_sum(seed@);
        assert forall|i: int|
            0 <= i < am@.len() implies sum_seq(#[trigger] mat_of(am@)[i]) > 0 || sum_seq(
            ints_of(pre_trust@),
        ) <= SCALE by {
            assert(mat_of(am@)[i] == ints_of(am@[i]@));
        }
    }
    run(&am, &pre_trust, &seed)
}

/// Evaluates the sum of a five-entry row.
proof fn lemma_row_sum(v: Seq<i64>)
    requires
        v.len() == 5,
    ensures
        sum_seq(ints_of(v)) == v[0] + v[1] + v[2] + v[3] + v[4],
{
    let s = ints_of(v);
    assert(sum_seq(s) == sum_seq(s.drop_last()) + s.last());
    assert(sum_seq(s.drop_last()) == sum_seq(s.drop_last().drop_last()) + s.drop_last().last());
    assert(sum_seq(s.drop_last().drop_last()) == sum_seq(s.drop_last().drop_last().drop_last())
        + s.drop_last().drop_last().last());
    assert(sum_seq(s.drop_last().drop_last().drop_last()) == sum_seq(
        s.drop_last().drop_last().drop_last().drop_last(),
    ) + s.drop_last().drop_last().drop_last().last());
    assert(sum_seq(s.drop_last().drop_last().drop_last().drop_last()) == sum_seq(
        s.drop_last().drop_last().drop_last().drop_last().drop_last(),
    ) + s.drop_last().drop_last().drop_last().drop_last().last());
    assert(s.drop_last().drop_last().drop_last().drop_last().drop_last() =~= Seq::<int>::empty());
}

} // verus!
