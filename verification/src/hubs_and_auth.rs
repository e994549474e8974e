//! Hubs-and-authorities ranking: each round, a peer's hub mass gathers the
//! authority mass of the peers it points to, the authority mass gathers
//! the hub mass of the peers pointing at it, and both vectors are rescaled
//! to unit length.

use vstd::prelude::*;
use crate::engine::{col_dot, hop_spec};
use crate::fixed::{
    ints_of, lemma_sum_const, lemma_sum_elem_bound, lemma_sum_nonneg, lemma_sum_pointwise_le,
    lemma_sum_take_all, lemma_sum_take_step, mat_of, sum_seq, SCALE,
};
use crate::utils::{
    is_square, mat_bounded, normalise_sqrt, normalise_sqrt_spec, row5, transpose, vec_bounded,
};
use vstd::arithmetic::div_mod::{lemma_div_is_ordered, lemma_div_multiples_vanish,
    lemma_div_pos_is_pos};
use vstd::arithmetic::mul::{
    lemma_mul_is_distributive_add_other_way, lemma_mul_nonnegative, lemma_mul_upper_bound,
};

verus! {

/// The fixed number of mutual-reinforcement rounds.
pub const NUM_ITER: u64 = 50;

/// The largest group this ranking accepts: keeps one hop's entries within
/// the mass that unit-length rescaling accepts.
pub const MAX_HITS_PEERS: usize = 1_000_000;

/// The transpose of an `n` by `n` integer matrix.
pub open spec fn transpose_spec(m: Seq<Seq<int>>, n: nat) -> Seq<Seq<int>> {
    Seq::new(n, |i: int| Seq::new(n, |j: int| m[j][i]))
}

/// One round: hubs gather authority mass along outgoing edges, authorities
/// gather hub mass along incoming ones, and both are rescaled to unit
/// length.
pub open spec fn hits_step(
    am: Seq<Seq<int>>,
    tam: Seq<Seq<int>>,
    hubs: Seq<int>,
    auth: Seq<int>,
) -> (Seq<int>, Seq<int>) {
    (normalise_sqrt_spec(hop_spec(am, auth)), normalise_sqrt_spec(hop_spec(tam, hubs)))
}

/// `k` rounds of mutual reinforcement from the two starting states.
pub open spec fn hits_iter(
    am: Seq<Seq<int>>,
    tam: Seq<Seq<int>>,
    hubs: Seq<int>,
    auth: Seq<int>,
    k: nat,
) -> (Seq<int>, Seq<int>)
    decreases k,
{
    if k == 0 {
        (hubs, auth)
    } else {
        let prev = hits_iter(am, tam, hubs, auth, (k - 1) as nat);
        hits_step(am, tam, prev.0, prev.1)
    }
}

/// One unnormalized hop: every peer receives the incoming mass of its
/// column of `m`, scaled back down by one fixed-point unit.
fn hop_raw(m: &Vec<Vec<i64>>, s: &Vec<i64>) -> (r: Vec<i64>)
    requires
        m@.len() == s@.len(),
        is_square(m@, s@.len() as int),
        s@.len() <= MAX_HITS_PEERS,
        mat_bounded(m@, SCALE as int),
        vec_bounded(s@, SCALE as int),
    ensures
        r@.len() == s@.len(),
        ints_of(r@) == hop_spec(mat_of(m@), ints_of(s@)),
        vec_bounded(r@, 1_000_000_000_000_000),
{
    let n = s.len();
    let ghost mm = mat_of(m@);
    let ghost sm = ints_of(s@);
    let mut r: Vec<i64> = Vec::new();
    let mut i: usize = 0;
    while i < n
        invariant
            i <= n,
            n == s@.len() == m@.len(),
            n <= MAX_HITS_PEERS,
            is_square(m@, n as int),
            mat_bounded(m@, SCALE as int),
            vec_bounded(s@, SCALE as int),
            mm == mat_of(m@),
            sm == ints_of(s@),
            r@.len() == i,
            forall|k: int|
                0 <= k < i ==> r@[k] as int == col_dot(mm, sm, k) / (SCALE as int),
            vec_bounded(r@, 1_000_000_000_000_000),
        decreases n - i,
    {
        let ghost inner = Seq::new(mm.len(), |j: int| mm[j][i as int] * sm[j]);
        let mut acc: u128 = 0;
        let mut j: usize = 0;
        while j < n
            invariant
                j <= n,
                i < n,
                n == s@.len() == m@.len(),
                n <= MAX_HITS_PEERS,
                is_square(m@, n as int),
                mat_bounded(m@, SCALE as int),
                vec_bounded(s@, SCALE as int),
                mm == mat_of(m@),
                sm == ints_of(s@),
                inner == Seq::new(mm.len(), |jj: int| mm[jj][i as int] * sm[jj]),
                acc as int == sum_seq(inner.take(j as int)),
                acc as int <= (j as int) * 1000000000000000000,
            decreases n - j,
        {
            proof {
                assert(m@[j as int]@.len() == n as int);
                assert(mm[j as int] == ints_of(m@[j as int]@));
                assert(mm[j as int][i as int] == m@[j as int]@[i as int] as int);
                assert(sm[j as int] == s@[j as int] as int);
                assert(0 <= mm[j as int][i as int] <= SCALE as int);
                assert(0 <= sm[j as int] <= SCALE as int);
                lemma_mul_upper_bound(mm[j as int][i as int], SCALE as int, sm[j as int],
                    SCALE as int);
                lemma_mul_nonnegative(mm[j as int][i as int], sm[j as int]);
                lemma_sum_take_step(inner, j as int);
                assert(inner[j as int] == mm[j as int][i as int] * sm[j as int]);
                assert((j as int + 1) * 1000000000000000000 == (j as int) * 1000000000000000000
                    + 1000000000000000000) by {
                    lemma_mul_is_distributive_add_other_way(1000000000000000000, j as int, 1);
                }
                assert((j as int + 1) * 1000000000000000000 <= (MAX_HITS_PEERS as int)
                    * 1000000000000000000) by {
                    vstd::arithmetic::mul::lemma_mul_inequality(
                        j as int + 1,
                        MAX_HITS_PEERS as int,
                        1000000000000000000,
                    );
                }
            }
            acc = acc + (m[j][i] as u128) * (s[j] as u128);
            j = j + 1;
        }
        proof {
            lemma_sum_take_all(inner);
            assert(acc as int == col_dot(mm, sm, i as int));
            let ones = Seq::new(mm.len(), |jj: int| 1000000000000000000int);
            assert forall|jj: int| 0 <= jj < inner.len() implies 0 <= #[trigger] inner[jj]
                <= ones[jj] by {
                assert(mm[jj] == ints_of(m@[jj]@));
                assert(mm[jj][i as int] == m@[jj]@[i as int] as int);
                assert(sm[jj] == s@[jj] as int);
                lemma_mul_upper_bound(mm[jj][i as int], SCALE as int, sm[jj], SCALE as int);
                lemma_mul_nonnegative(mm[jj][i as int], sm[jj]);
            }
            lemma_sum_pointwise_le(inner, ones);
            lemma_sum_const(mm.len(), 1000000000000000000int);
            assert((n as int) * 1000000000000000000 <= 1000000000000000000000000) by {
                vstd::arithmetic::mul::lemma_mul_inequality(
                    n as int,
                    1000000,
                    1000000000000000000,
                );
            }
            lemma_sum_nonneg(inner);
            lemma_div_pos_is_pos(col_dot(mm, sm, i as int), SCALE as int);
            lemma_div_is_ordered(
                col_dot(mm, sm, i as int),
                1000000000000000000000000,
                SCALE as int,
            );
            assert(1000000000000000000000000int / (SCALE as int) == 1000000000000000) by {
                lemma_div_multiples_vanish(1000000000000000, SCALE as int);
            }
        }
        let h: u128 = acc / (SCALE as u128);
        r.push(h as i64);
        i = i + 1;
    }
    proof {
        assert(ints_of(r@) =~= hop_spec(mm, sm));
    }
    r
}

/// One full ranking: `iters` rounds of mutual reinforcement between hub
/// and authority scores, each round rescaled to unit length. Returns the
/// final hub scores and authority scores.
fn run(am: &Vec<Vec<i64>>, initial_state_hubs: &Vec<i64>, initial_state_auth: &Vec<i64>) -> (r: (
    Vec<i64>,
    Vec<i64>,
))
    requires
        is_square(am@, am@.len() as int),
        mat_bounded(am@, SCALE as int),
        initial_state_hubs@.len() == am@.len(),
        initial_state_auth@.len() == am@.len(),
        vec_bounded(initial_state_hubs@, SCALE as int),
        vec_bounded(initial_state_auth@, SCALE as int),
        am@.len() <= MAX_HITS_PEERS,
    ensures
        r.0@.len() == am@.len(),
        r.1@.len() == am@.len(),
        ints_of(r.0@) == hits_iter(
            mat_of(am@),
            transpose_spec(mat_of(am@), am@.len()),
            ints_of(initial_state_hubs@),
            ints_of(initial_state_auth@),
            NUM_ITER as nat,
        ).0,
        ints_of(r.1@) == hits_iter(
            mat_of(am@),
            transpose_spec(mat_of(am@), am@.len()),
            ints_of(initial_state_hubs@),
            ints_of(initial_state_auth@),
            NUM_ITER as nat,
        ).1,
        vec_bounded(r.0@, SCALE as int),
        vec_bounded(r.1@, SCALE as int),
{
    let n = am.len();
    let ghost amm = mat_of(am@);
    let ghost tamm = transpose_spec(amm, n as nat);
    let transposed_am = transpose(am);
    proof {
        assert forall|a: int| 0 <= a < n implies #[trigger] mat_of(transposed_am@)[a] == tamm[a] by {
            assert(mat_of(transposed_am@)[a] == ints_of(transposed_am@[a]@));
            assert forall|b: int| 0 <= b < n implies ints_of(transposed_am@[a]@)[b] == #[trigger]
                tamm[a][b] by {
                assert(transposed_am@[a]@[b] == am@[b]@[a]);
                assert(tamm[a][b] == amm[b][a]);
                assert(amm[b] == ints_of(am@[b]@));
            }
            assert(ints_of(transposed_am@[a]@) =~= tamm[a]);
        }
        assert(mat_of(transposed_am@) =~= tamm);
        assert forall|a: int, b: int|
            0 <= a < transposed_am@.len() && 0 <= b < transposed_am@[a]@.len() implies 0
            <= #[trigger] transposed_am@[a]@[b] <= SCALE as int by {
            assert(transposed_am@[a]@[b] == am@[b]@[a]);
        }
        assert(mat_bounded(transposed_am@, SCALE as int));
    }
    let mut hubs = initial_state_hubs.clone();
    let mut auth = initial_state_auth.clone();
    let mut k: u64 = 0;
    while k < NUM_ITER
        invariant
            k <= NUM_ITER,
            n == am@.len(),
            n <= MAX_HITS_PEERS,
            is_square(am@, n as int),
            mat_bounded(am@, SCALE as int),
            amm == mat_of(am@),
            tamm == transpose_spec(amm, n as nat),
            transposed_am@.len() == n,
            is_square(transposed_am@, n as int),
            mat_bounded(transposed_am@, SCALE as int),
            mat_of(transposed_am@) == tamm,
            hubs@.len() == n,
            auth@.len() == n,
            vec_bounded(hubs@, SCALE as int),
            vec_bounded(auth@, SCALE as int),
            ints_of(hubs@) == hits_iter(
                amm,
                tamm,
                ints_of(initial_state_hubs@),
                ints_of(initial_state_auth@),
                k as nat,
            ).0,
            ints_of(auth@) == hits_iter(
                amm,
                tamm,
                ints_of(initial_state_hubs@),
                ints_of(initial_state_auth@),
                k as nat,
            ).1,
        decreases NUM_ITER - k,
    {
        let new_hubs = hop_raw(am, &auth);
        let new_auth = hop_raw(&transposed_am, &hubs);
        let final_hubs = normalise_sqrt(&new_hubs);
        let final_auth = normalise_sqrt(&new_auth);
        hubs = final_hubs;
        auth = final_auth;
        k = k + 1;
    }
    (hubs, auth)
}

/// Ranks the module's fixed example graph and returns the final hub and
/// authority score of each of its five peers.
pub fn run_job() -> (r: (Vec<i64>, Vec<i64>))
    ensures
        r.0@.len() == 5,
        r.1@.len() == 5,
        vec_bounded(r.0@, SCALE as int),
        vec_bounded(r.1@, SCALE as int),
{
    let s: i64 = SCALE;
    let mut am: Vec<Vec<i64>> = Vec::new();
    am.push(row5(0, s, 0, s, 0));
    am.push(row5(0, 0, 0, s, 0));
    am.push(row5(s, 0, 0, s, s));
    am.push(row5(0, s, 0, 0, 0));
    am.push(row5(0, s, 0, s, 0));
    let initial_state_hubs = row5(320_000_000, 0, 220_000_000, 0, 660_000_000);
    let initial_state_auth = row5(320_000_000, 110_000_000, 140_000_000, 100_000_000, 330_000_000);
    run(&am, &initial_state_hubs, &initial_state_auth)
}

} // verus!
