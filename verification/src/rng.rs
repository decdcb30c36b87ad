//! The stochastic policy's primitives: one trusted draw of a bounded
//! random number, and a verified weighted selection over a candidate
//! list.  Everything that follows a draw is verified for every value the
//! draw can take.
use vstd::prelude::*;

verus! {

/// Relies on rand::random_range: returns a value drawn from the half-open
/// range below `bound`, which is nonempty since `bound` is at least one.
#[verifier::external_body]
pub fn random_below(bound: u64) -> (r: u64)
    requires
        1 <= bound,
    ensures
        r < bound,
{
    rand::random_range(0..bound)
}

/// Sum of the first `n` weights.
pub open spec fn weight_sum_s(ws: Seq<i64>, n: int) -> int
    decreases n,
{
    if n <= 0 {
        0
    } else {
        weight_sum_s(ws, n - 1) + ws[n - 1]
    }
}

/// All weights are nonnegative and at most the given cap.
pub open spec fn weights_ok_s(ws: Seq<i64>, cap: int) -> bool {
    forall|k: int| 0 <= k < ws.len() ==> 0 <= #[trigger] ws[k] <= cap
}

/// A sum of nonnegative bounded weights is nonnegative and bounded by
/// count times cap.
pub proof fn lemma_weight_sum_bounds(ws: Seq<i64>, n: int, cap: int)
    requires
        0 <= n <= ws.len(),
        0 <= cap,
        weights_ok_s(ws, cap),
    ensures
        0 <= weight_sum_s(ws, n) <= n * cap,
    decreases n,
{
    if n > 0 {
        lemma_weight_sum_bounds(ws, n - 1, cap);
        assert((n - 1) * cap + cap == n * cap) by (nonlinear_arith);
    }
}

/// Total weight of a candidate list, as a wide integer so that no realistic
/// list can overflow it.
pub fn total_weight(ws: &Vec<i64>) -> (total: i128)
    requires
        weights_ok_s(ws@, 4_000_000_000_000),
    ensures
        total == weight_sum_s(ws@, ws@.len() as int),
        total >= 0,
{
    let n = ws.len();
    let mut acc: i128 = 0;
    let mut i: usize = 0;
    while i < n
        invariant
            i <= n,
            n == ws@.len(),
            weights_ok_s(ws@, 4_000_000_000_000),
            acc == weight_sum_s(ws@, i as int),
            0 <= acc <= (i as int) * 4_000_000_000_000,
        decreases n - i,
    {
        proof {
            lemma_weight_sum_bounds(ws@, i + 1, 4_000_000_000_000);
        }
        acc = acc + (ws[i] as i128);
        i = i + 1;
    }
    acc
}

/// Weighted selection: given a draw `r` below the total weight, return
/// the index of the bucket `r` falls into, scanning in list order.  The
/// chosen bucket has positive weight, and the probability of each bucket
/// under a uniform draw is proportional to its weight.
pub fn weighted_choice(ws: &Vec<i64>, r: u64) -> (idx: usize)
    requires
        ws@.len() >= 1,
        weights_ok_s(ws@, 4_000_000_000_000),
        (r as int) < weight_sum_s(ws@, ws@.len() as int),
    ensures
        idx < ws@.len(),
        ws@[idx as int] > 0,
        weight_sum_s(ws@, idx as int) <= r as int,
        (r as int) < weight_sum_s(ws@, idx as int + 1),
{
    let n = ws.len();
    let mut acc: i128 = 0;
    let mut i: usize = 0;
    while i < n
        invariant
            i <= n,
            n == ws@.len(),
            weights_ok_s(ws@, 4_000_000_000_000),
            acc == weight_sum_s(ws@, i as int),
            0 <= acc <= (i as int) * 4_000_000_000_000,
            acc <= r as int,
            (r as int) < weight_sum_s(ws@, ws@.len() as int),
        decreases n - i,
    {
        proof {
            lemma_weight_sum_bounds(ws@, i + 1, 4_000_000_000_000);
        }
        let w = ws[i] as i128;
        if (r as i128) < acc + w {
            return i;
        }
        acc = acc + w;
        i = i + 1;
    }
    proof {
        assert(false);
    }
    0
}

} // verus!
