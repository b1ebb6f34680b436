//! The PUCT tree search.
//!
//! One `MCTS` instance owns the statistics of one game episode: a map from
//! state keys to nodes.  A state key packs the mover's and the opponent's
//! masks, so that transposed move orders reaching the same
//! position-with-same-mover share one node.  All probabilities and values
//! are fixed-point numbers in units of `1 / SCALE` (see `evaluator`), so
//! the whole search is verified integer arithmetic.

use std::collections::HashMap;

use vstd::prelude::*;

use crate::bits::{occ, pop64};
use crate::board::{Board, Position};
use crate::evaluator::{
    lemma_sum_i64_elem, lemma_sum_i64_nonneg, lemma_sum_i64_push, lemma_sum_i64_take_next,
    lemma_sum_u64_elem, lemma_sum_u64_nonneg, lemma_sum_u64_take_next, lemma_sum_u64_update,
    spec_uniform_at, sum_i64, sum_u64, uniform_policy, Evaluator, EvaluatorError, NoiseSource,
    SCALE,
};
use crate::othello_logic::legal_mask;

verus! {

/// Why a search call stopped without a policy.
#[derive(Clone, Debug)]
pub enum SearchError {
    /// The game has already reached a terminal state.
    GameAlreadyFinished,
    /// The player to move has no legal move (a pass state).
    NoLegalMove,
    /// The evaluator failed; the whole search call is abandoned rather
    /// than returning a statistically incomplete policy.
    Evaluator(EvaluatorError),
}

/// The canonical key of a search state: the mover's mask in the high half,
/// the opponent's in the low half.
pub open spec fn state_key(b: Board) -> u128 {
    ((b.mover_mask() as u128) << 64) | (b.opp_mask() as u128)
}

/// The mover's mask of a state key.
pub open spec fn key_mover(k: u128) -> u64 {
    (k >> 64) as u64
}

/// The opponent's mask of a state key.
pub open spec fn key_opp(k: u128) -> u64 {
    k as u64
}

pub proof fn lemma_state_key(b: Board)
    ensures
        key_mover(state_key(b)) == b.mover_mask(),
        key_opp(state_key(b)) == b.opp_mask(),
{
    let m = b.mover_mask();
    let o = b.opp_mask();
    assert(((((m as u128) << 64) | (o as u128)) >> 64) as u64 == m && ((((m as u128) << 64) | (
    o as u128)) as u64) == o) by (bit_vector);
}

/// The statistics of one search state: the cached prior `ps`, the total
/// visit count `ns`, and per-action visit counts `nsa` and summed
/// backed-up values `wsa`.
pub struct Node {
    pub legal: u64,
    pub ps: Vec<i64>,
    pub ns: u64,
    pub nsa: Vec<u64>,
    pub wsa: Vec<i128>,
}

impl Node {
    /// Well-formedness relative to the masks of the node's key: the legal
    /// set matches the position, the prior is a fixed-point vector carried
    /// by the legal set, visits happen only on legal cells, the total
    /// visit count is the sum of the per-action counts, and each summed
    /// value is bounded by its visit count.
    pub open spec fn wf(self, mover: u64, opp: u64) -> bool {
        &&& self.legal == legal_mask(mover, opp)
        &&& self.legal != 0
        &&& self.ps.len() == 64
        &&& self.nsa.len() == 64
        &&& self.wsa.len() == 64
        &&& self.ns as int == sum_u64(self.nsa@)
        &&& forall|i: int| 0 <= i < 64 ==> 0 <= #[trigger] self.ps[i] <= SCALE
        &&& forall|i: int|
            0 <= i < 64 && !occ(self.legal, i) ==> #[trigger] self.ps[i] == 0 && self.nsa[i] == 0
        &&& forall|i: int|
            0 <= i < 64 ==> -(SCALE as int) * ((#[trigger] self.nsa[i]) as int) <= self.wsa[i]
                as int <= (SCALE as int) * (self.nsa[i] as int)
    }
}

proof fn lemma_node_wf_facts(node: Node, mover: u64, opp: u64)
    requires
        node.wf(mover, opp),
    ensures
        node.legal == legal_mask(mover, opp),
        node.legal != 0,
        node.ps.len() == 64,
        node.nsa.len() == 64,
        node.wsa.len() == 64,
        node.ns as int == sum_u64(node.nsa@),
        forall|i: int| 0 <= i < 64 ==> 0 <= #[trigger] node.ps[i] <= SCALE,
        forall|i: int|
            #![trigger node.ps[i]]
            #![trigger node.nsa[i]]
            0 <= i < 64 && !occ(node.legal, i) ==> node.ps[i] == 0 && node.nsa[i] == 0,
        forall|i: int|
            0 <= i < 64 ==> -(SCALE as int) * ((#[trigger] node.nsa[i]) as int) <= node.wsa[i]
                as int <= (SCALE as int) * (node.nsa[i] as int),
{
}

/// One backup step at a node: the legal set and the stored prior are
/// untouched, and the total visit count grows by one — unless the counts
/// already sit at the u64 ceiling, where the statistics stay put.
pub open spec fn spec_visit_step(oldn: Node, newn: Node) -> bool {
    &&& newn.legal == oldn.legal
    &&& newn.ps@ == oldn.ps@
    &&& oldn.ns < 0xffff_ffff_ffff_ffffu64 ==> newn.ns == oldn.ns + 1
    &&& oldn.ns == 0xffff_ffff_ffff_ffffu64 ==> newn.ns == oldn.ns && newn.nsa@ == oldn.nsa@
        && newn.wsa@ == oldn.wsa@
}

/// `r` is the floor of the square root of `x`.
pub open spec fn is_sqrt(x: int, r: int) -> bool {
    r >= 0 && r * r <= x < (r + 1) * (r + 1)
}

/// The floor of the square root.
pub open spec fn sqrt_floor(x: int) -> int {
    choose|r: int| is_sqrt(x, r)
}

pub proof fn lemma_sqrt_floor(x: int, r: int)
    requires
        is_sqrt(x, r),
    ensures
        sqrt_floor(x) == r,
{
    assert(exists|q: int| is_sqrt(x, q)) by {
        assert(is_sqrt(x, r));
    }
    let q = sqrt_floor(x);
    assert(is_sqrt(x, q));
    assert(q == r) by (nonlinear_arith)
        requires
            q >= 0,
            r >= 0,
            q * q <= x,
            x < (q + 1) * (q + 1),
            r * r <= x,
            x < (r + 1) * (r + 1),
    ;
}

/// Floor of the square root, by binary search.
pub(crate) fn isqrt_u128(x: u128) -> (r: u128)
    ensures
        r as int * r as int <= x as int,
        (x as int) < (r as int + 1) * (r as int + 1),
        r < 0x1_0000_0000_0000_0000u128,
        r as int == sqrt_floor(x as int),
{
    let mut lo: u128 = 0;
    let mut hi: u128 = 0x1_0000_0000_0000_0000;
    proof {
        assert((0x1_0000_0000_0000_0000 as int) * (0x1_0000_0000_0000_0000 as int) > x as int)
            by (nonlinear_arith)
            requires
                x as int <= 0xffffffffffffffffffffffffffffffff,
        ;
    }
    while hi - lo > 1
        invariant
            lo < hi <= 0x1_0000_0000_0000_0000u128,
            lo as int * lo as int <= x as int,
            hi as int * hi as int > x as int,
        decreases hi - lo,
    {
        let mid: u128 = lo + (hi - lo) / 2;
        proof {
            assert(mid as int * mid as int <= 0xffffffffffffffffffffffffffffffff)
                by (nonlinear_arith)
                requires
                    mid as int <= 0xffff_ffff_ffff_ffff,
            ;
        }
        if mid * mid <= x {
            lo = mid;
        } else {
            hi = mid;
        }
    }
    proof {
        assert((lo as int + 1) * (lo as int + 1) > x as int) by {
            assert(hi == lo + 1);
        }
        lemma_sqrt_floor(x as int, lo as int);
    }
    lo
}

/// The exploration-adjusted score of action `a` at a node, in fixed point:
/// the running mean of the backed-up values plus
/// `cpuct * ps[a] * sqrt(ns) / (1 + nsa[a])`.
pub open spec fn spec_ucb(node: Node, cpuct: int, a: int) -> int {
    let q = if node.nsa[a] > 0 {
        if node.wsa[a] >= 0 {
            node.wsa[a] as int / (node.nsa[a] as int)
        } else {
            -((-(node.wsa[a] as int)) / (node.nsa[a] as int))
        }
    } else {
        0
    };
    let sq = sqrt_floor(node.ns as int * (SCALE as int) * (SCALE as int));
    q + cpuct * (node.ps[a] as int) * sq / ((SCALE as int) * (SCALE as int) * (1 + node.nsa[a]
        as int))
}

/// Computes the score `spec_ucb` of one action.
fn ucb(node: &Node, cpuct: i64, a: usize) -> (r: i128)
    requires
        a < 64,
        node.ps.len() == 64,
        node.nsa.len() == 64,
        node.wsa.len() == 64,
        0 <= node.ps[a as int] <= SCALE,
        -(SCALE as int) * (node.nsa[a as int] as int) <= node.wsa[a as int] as int <= (SCALE
            as int) * (node.nsa[a as int] as int),
        0 <= cpuct <= 100 * SCALE,
    ensures
        r as int == spec_ucb(*node, cpuct as int, a as int),
{
    let nsa = node.nsa[a];
    let wsa = node.wsa[a];
    proof {
        assert(-20_000_000_000_000_000_000_000_000 <= node.wsa[a as int] as int
            <= 20_000_000_000_000_000_000_000_000) by (nonlinear_arith)
            requires
                SCALE == 1_000_000,
                0 <= node.nsa[a as int] as int <= 0xffff_ffff_ffff_ffff,
                -(SCALE as int) * (node.nsa[a as int] as int) <= node.wsa[a as int] as int <= (
                SCALE as int) * (node.nsa[a as int] as int),
        ;
    }
    let q: i128 = if nsa > 0 {
        if wsa >= 0 {
            let m: u128 = (wsa as u128) / (nsa as u128);
            proof {
                assert(wsa as int / (nsa as int) <= wsa as int) by (nonlinear_arith)
                    requires
                        nsa as int >= 1,
                        wsa as int >= 0,
                ;
            }
            m as i128
        } else {
            let m: u128 = ((-wsa) as u128) / (nsa as u128);
            proof {
                assert((-(wsa as int)) / (nsa as int) <= -(wsa as int)) by (nonlinear_arith)
                    requires
                        nsa as int >= 1,
                        (wsa as int) < 0,
                ;
            }
            -(m as i128)
        }
    } else {
        0
    };
    let sq: u128 = isqrt_u128((node.ns as u128) * (SCALE as u128) * (SCALE as u128));
    proof {
        assert(0 <= (cpuct as int) * (node.ps[a as int] as int) && (cpuct as int) * (node.ps[
        a as int] as int) <= 100_000_000_000_000) by (nonlinear_arith)
            requires
                0 <= cpuct as int <= 100_000_000,
                0 <= node.ps[a as int] as int <= 1_000_000,
        ;
        assert(0 <= (cpuct as int) * (node.ps[a as int] as int) * (sq as int) && (cpuct as int) * (
        node.ps[a as int] as int) * (sq as int) <= 0x10_0000_0000_0000_0000_0000_0000_0000)
            by (nonlinear_arith)
            requires
                0 <= (cpuct as int) * (node.ps[a as int] as int) <= 100_000_000_000_000,
                0 <= sq as int,
                (sq as int) < 0x1_0000_0000_0000_0000,
        ;
    }
    let num: i128 = (cpuct as i128) * (node.ps[a] as i128) * (sq as i128);
    proof {
        assert(1 <= (SCALE as int) * (SCALE as int) * (1 + node.nsa[a as int] as int) && (SCALE
            as int) * (SCALE as int) * (1 + node.nsa[a as int] as int)
            <= 0x10_0000_0000_0000_0000_0000_0000_0000) by (nonlinear_arith)
            requires
                SCALE == 1_000_000,
                0 <= node.nsa[a as int] as int <= 0xffff_ffff_ffff_ffff,
        ;
    }
    let den: i128 = (SCALE as i128) * (SCALE as i128) * (1 + nsa as i128);
    proof {
        assert(num as int / (den as int) <= num as int && num as int / (den as int) >= 0)
            by (nonlinear_arith)
            requires
                num as int >= 0,
                den as int >= 1,
        ;
    }
    q + num / den
}

/// The evaluator's raw policy with every non-legal entry zeroed.
pub open spec fn spec_masked(raw: Seq<i64>, legal: u64) -> Seq<i64> {
    Seq::new(64, |i: int| if occ(legal, i) { raw[i] } else { 0i64 })
}

/// The prior stored at a node's expansion: the raw policy masked to the
/// legal set and renormalized to sum near `SCALE`; the uniform
/// distribution over the legal set when the masked policy sums to zero.
pub open spec fn spec_expand_at(raw: Seq<i64>, legal: u64, i: int) -> int {
    let msum = sum_i64(spec_masked(raw, legal));
    if msum == 0 {
        spec_uniform_at(legal, i)
    } else {
        (spec_masked(raw, legal)[i] as int) * (SCALE as int) / msum
    }
}

/// Masks the raw policy to the legal set and renormalizes it.
pub fn masked_renorm(raw: &Vec<i64>, legal: u64) -> (v: Vec<i64>)
    requires
        raw.len() == 64,
        forall|i: int| 0 <= i < 64 ==> 0 <= #[trigger] raw[i] <= SCALE,
        legal != 0,
    ensures
        v.len() == 64,
        forall|i: int| 0 <= i < 64 ==> #[trigger] v[i] == spec_expand_at(raw@, legal, i),
        forall|i: int| 0 <= i < 64 ==> 0 <= #[trigger] v[i] <= SCALE,
        forall|i: int| 0 <= i < 64 && !occ(legal, i) ==> #[trigger] v[i] == 0,
{
    let ghost mseq = spec_masked(raw@, legal);
    let mut masked: Vec<i64> = Vec::new();
    let mut msum: i64 = 0;
    let mut i: usize = 0;
    while i < 64
        invariant
            raw.len() == 64,
            forall|j: int| 0 <= j < 64 ==> 0 <= #[trigger] raw@[j] <= SCALE,
            mseq == spec_masked(raw@, legal),
            i <= 64,
            masked.len() == i,
            forall|j: int| 0 <= j < i ==> #[trigger] masked[j] == mseq[j],
            msum == sum_i64(mseq.take(i as int)),
            0 <= msum <= i * 1_000_000,
        decreases 64 - i,
    {
        let e: i64 = if crate::othello_logic::test_cell(legal, i) {
            raw[i]
        } else {
            0
        };
        proof {
            assert(e == mseq[i as int]);
            lemma_sum_i64_take_next(mseq, i as int);
        }
        masked.push(e);
        msum = msum + e;
        i = i + 1;
    }
    proof {
        assert(mseq.take(64) =~= mseq);
        assert(masked@ =~= mseq);
    }
    if msum == 0 {
        let u = uniform_policy(legal);
        u
    } else {
        proof {
            assert forall|j: int| 0 <= j < 64 implies #[trigger] mseq[j] >= 0 by {}
            assert(msum >= 1);
        }
        let mut v: Vec<i64> = Vec::new();
        let mut j: usize = 0;
        while j < 64
            invariant
                masked.len() == 64,
                masked@ == mseq,
                mseq == spec_masked(raw@, legal),
                forall|t: int| 0 <= t < 64 ==> 0 <= #[trigger] mseq[t] <= SCALE,
                1 <= msum,
                msum == sum_i64(mseq),
                j <= 64,
                v.len() == j,
                forall|t: int|
                    0 <= t < j ==> #[trigger] v[t] == (mseq[t] as int) * (SCALE as int) / (
                    msum as int),
                forall|t: int| 0 <= t < j ==> 0 <= #[trigger] v[t] <= SCALE,
            decreases 64 - j,
        {
            proof {
                lemma_sum_i64_elem(mseq, j as int);
                assert(mseq[j as int] <= msum);
                assert(0 <= (mseq[j as int] as int) * (SCALE as int) / (msum as int) <= SCALE)
                    by (nonlinear_arith)
                    requires
                        1 <= msum as int,
                        0 <= mseq[j as int] as int <= msum as int,
                        SCALE == 1_000_000,
                ;
                assert((mseq[j as int] as int) * (SCALE as int) <= 1_000_000_000_000)
                    by (nonlinear_arith)
                    requires
                        0 <= mseq[j as int] as int <= 1_000_000,
                        SCALE == 1_000_000,
                ;
            }
            let num: u64 = (masked[j] as u64) * (SCALE as u64);
            let val: i64 = (num / (msum as u64)) as i64;
            v.push(val);
            j = j + 1;
        }
        proof {
            assert forall|t: int| 0 <= t < 64 && !occ(legal, t) implies #[trigger] v[t] == 0 by {
                assert(mseq[t] == 0);
            }
        }
        v
    }
}

/// The pointwise mix of a prior and a noise sample, before renormalizing:
/// `(SCALE - eps) * ps + eps * noise`, in squared fixed-point units.
pub open spec fn spec_mixed(ps: Seq<i64>, noise: Seq<i64>, eps: int) -> Seq<i64> {
    Seq::new(64, |i: int| ((SCALE - eps) * ps[i] + eps * noise[i]) as i64)
}

/// One entry of the renormalized mix of a prior and a noise sample; the
/// uniform distribution over the legal set if the mix sums to zero.
pub open spec fn spec_mix_at(ps: Seq<i64>, noise: Seq<i64>, eps: int, legal: u64, i: int) -> int {
    let m = spec_mixed(ps, noise, eps);
    let t = sum_i64(m);
    if t == 0 {
        spec_uniform_at(legal, i)
    } else {
        (m[i] as int) * (SCALE as int) / t
    }
}

/// Mixes exploration noise into a stored prior:
/// `(SCALE - eps) * ps + eps * noise`, renormalized.  With `eps == 0` the
/// prior is returned unchanged; with `eps == SCALE` the noise replaces it.
pub fn mix_policy(ps: &Vec<i64>, noise: &Vec<i64>, eps: i64, legal: u64) -> (v: Vec<i64>)
    requires
        ps.len() == 64,
        noise.len() == 64,
        forall|i: int| 0 <= i < 64 ==> 0 <= #[trigger] ps[i] <= SCALE,
        forall|i: int| 0 <= i < 64 ==> 0 <= #[trigger] noise[i] <= SCALE,
        forall|i: int| 0 <= i < 64 && !occ(legal, i) ==> #[trigger] ps[i] == 0,
        forall|i: int| 0 <= i < 64 && !occ(legal, i) ==> #[trigger] noise[i] == 0,
        0 <= eps <= SCALE,
        legal != 0,
    ensures
        v.len() == 64,
        forall|i: int| 0 <= i < 64 ==> 0 <= #[trigger] v[i] <= SCALE,
        forall|i: int| 0 <= i < 64 && !occ(legal, i) ==> #[trigger] v[i] == 0,
        eps == 0 ==> v@ == ps@,
        eps == SCALE ==> v@ == noise@,
        0 < eps < SCALE ==> forall|i: int|
            0 <= i < 64 ==> #[trigger] v[i] == spec_mix_at(ps@, noise@, eps as int, legal, i),
{
    if eps == 0 {
        let mut v: Vec<i64> = Vec::new();
        let mut i: usize = 0;
        while i < 64
            invariant
                ps.len() == 64,
                i <= 64,
                v.len() == i,
                forall|j: int| 0 <= j < i ==> #[trigger] v[j] == ps[j],
            decreases 64 - i,
        {
            v.push(ps[i]);
            i = i + 1;
        }
        proof {
            assert(v@ =~= ps@);
        }
        v
    } else if eps == SCALE {
        let mut v: Vec<i64> = Vec::new();
        let mut i: usize = 0;
        while i < 64
            invariant
                noise.len() == 64,
                i <= 64,
                v.len() == i,
                forall|j: int| 0 <= j < i ==> #[trigger] v[j] == noise[j],
            decreases 64 - i,
        {
            v.push(noise[i]);
            i = i + 1;
        }
        proof {
            assert(v@ =~= noise@);
        }
        v
    } else {
        let mut mixed: Vec<i64> = Vec::new();
        let mut total: i64 = 0;
        let mut i: usize = 0;
        while i < 64
            invariant
                ps.len() == 64,
                noise.len() == 64,
                forall|j: int| 0 <= j < 64 ==> 0 <= #[trigger] ps[j] <= SCALE,
                forall|j: int| 0 <= j < 64 ==> 0 <= #[trigger] noise[j] <= SCALE,
                forall|j: int| 0 <= j < 64 && !occ(legal, j) ==> #[trigger] ps[j] == 0,
                forall|j: int| 0 <= j < 64 && !occ(legal, j) ==> #[trigger] noise[j] == 0,
                0 < eps < SCALE,
                i <= 64,
                mixed.len() == i,
                forall|j: int|
                    0 <= j < i ==> #[trigger] mixed[j] == spec_mixed(ps@, noise@, eps as int)[j],
                forall|j: int| 0 <= j < i ==> 0 <= #[trigger] mixed[j] <= 2_000_000_000_000,
                forall|j: int| 0 <= j < i && !occ(legal, j) ==> #[trigger] mixed[j] == 0,
                0 <= total <= i * 2_000_000_000_000,
                total == sum_i64(mixed@),
            decreases 64 - i,
        {
            proof {
                assert(0 <= (SCALE - eps) as int * (ps[i as int] as int) && (SCALE - eps) as int * (
                ps[i as int] as int) <= 1_000_000_000_000 && 0 <= (eps as int) * (noise[
                i as int] as int) && (eps as int) * (noise[i as int] as int)
                    <= 1_000_000_000_000) by (nonlinear_arith)
                    requires
                        0 < eps as int,
                        (eps as int) < 1_000_000,
                        SCALE == 1_000_000,
                        0 <= ps[i as int] as int <= 1_000_000,
                        0 <= noise[i as int] as int <= 1_000_000,
                ;
                assert((SCALE - eps) as int * 0 == 0 && (eps as int) * 0 == 0) by (nonlinear_arith);
            }
            let ghost old_mixed = mixed@;
            let m: i64 = (SCALE - eps) * ps[i] + eps * noise[i];
            proof {
                assert(m == spec_mixed(ps@, noise@, eps as int)[i as int]);
            }
            mixed.push(m);
            total = total + m;
            proof {
                lemma_sum_i64_push(old_mixed, m);
            }
            i = i + 1;
        }
        proof {
            assert(mixed@ =~= spec_mixed(ps@, noise@, eps as int));
        }
        if total == 0 {
            let u = uniform_policy(legal);
            proof {
                assert forall|t: int| 0 <= t < 64 && !occ(legal, t) implies #[trigger] u[t]
                    == 0 by {
                    assert(u[t] == spec_uniform_at(legal, t));
                }
                assert forall|t: int| 0 <= t < 64 implies #[trigger] u[t] == spec_mix_at(
                    ps@,
                    noise@,
                    eps as int,
                    legal,
                    t,
                ) by {}
            }
            u
        } else {
            let mut v: Vec<i64> = Vec::new();
            let mut j: usize = 0;
            while j < 64
                invariant
                    mixed.len() == 64,
                    forall|t: int| 0 <= t < 64 ==> 0 <= #[trigger] mixed[t] <= 2_000_000_000_000,
                    forall|t: int| 0 <= t < 64 && !occ(legal, t) ==> #[trigger] mixed[t] == 0,
                    1 <= total,
                    total == sum_i64(mixed@),
                    mixed@ == spec_mixed(ps@, noise@, eps as int),
                    0 < eps < SCALE,
                    j <= 64,
                    v.len() == j,
                    forall|t: int| 0 <= t < j ==> 0 <= #[trigger] v[t] <= SCALE,
                    forall|t: int| 0 <= t < j && !occ(legal, t) ==> #[trigger] v[t] == 0,
                    forall|t: int|
                        0 <= t < j ==> #[trigger] v[t] == spec_mix_at(
                            ps@,
                            noise@,
                            eps as int,
                            legal,
                            t,
                        ),
                decreases 64 - j,
            {
                proof {
                    lemma_sum_i64_elem(mixed@, j as int);
                    assert(0 <= (mixed[j as int] as int) * (SCALE as int) / (total as int)
                        <= SCALE) by (nonlinear_arith)
                        requires
                            1 <= total as int,
                            0 <= mixed[j as int] as int <= total as int,
                            SCALE == 1_000_000,
                    ;
                    assert((mixed[j as int] as int) * (SCALE as int)
                        <= 2_000_000_000_000_000_000_000_000) by (nonlinear_arith)
                        requires
                            0 <= mixed[j as int] as int <= 2_000_000_000_000,
                            SCALE == 1_000_000,
                    ;
                    if !occ(legal, j as int) {
                        assert((0int) * (SCALE as int) == 0) by (nonlinear_arith);
                        assert((0int) / (total as int) == 0) by (nonlinear_arith)
                            requires
                                total as int >= 1,
                        ;
                    }
                }
                let num: u128 = (mixed[j] as u128) * (SCALE as u128);
                let val: i64 = (num / (total as u128)) as i64;
                v.push(val);
                j = j + 1;
            }
            v
        }
    }
}

fn zeros_u64() -> (v: Vec<u64>)
    ensures
        v@ == Seq::new(64, |i: int| 0u64),
{
    let mut v: Vec<u64> = Vec::new();
    let mut i: usize = 0;
    while i < 64
        invariant
            i <= 64,
            v.len() == i,
            forall|j: int| 0 <= j < i ==> #[trigger] v[j] == 0u64,
        decreases 64 - i,
    {
        v.push(0);
        i = i + 1;
    }
    proof {
        assert(v@ =~= Seq::new(64, |i: int| 0u64));
    }
    v
}

fn zeros_i128() -> (v: Vec<i128>)
    ensures
        v@ == Seq::new(64, |i: int| 0i128),
{
    let mut v: Vec<i128> = Vec::new();
    let mut i: usize = 0;
    while i < 64
        invariant
            i <= 64,
            v.len() == i,
            forall|j: int| 0 <= j < i ==> #[trigger] v[j] == 0i128,
        decreases 64 - i,
    {
        v.push(0);
        i = i + 1;
    }
    proof {
        assert(v@ =~= Seq::new(64, |i: int| 0i128));
    }
    v
}

/// Picks the legal action with the greatest `spec_ucb` score; ties go to
/// the action encountered last, so the choice is deterministic.
fn select_action(node: &Node, cpuct: i64, list: &Vec<Position>) -> (best: usize)
    requires
        node.ps.len() == 64,
        node.nsa.len() == 64,
        node.wsa.len() == 64,
        forall|i: int| 0 <= i < 64 ==> 0 <= #[trigger] node.ps[i] <= SCALE,
        forall|i: int|
            0 <= i < 64 ==> -(SCALE as int) * ((#[trigger] node.nsa[i]) as int) <= node.wsa[i]
                as int <= (SCALE as int) * (node.nsa[i] as int),
        0 <= cpuct <= 100 * SCALE,
        list.len() >= 1,
        forall|n: int| 0 <= n < list.len() ==> (#[trigger] list[n]).wf(),
    ensures
        best < 64,
        exists|n: int| 0 <= n < list.len() && (#[trigger] list[n]).idx() == best,
        forall|n: int|
            0 <= n < list.len() ==> spec_ucb(*node, cpuct as int, best as int) >= spec_ucb(
                *node,
                cpuct as int,
                (#[trigger] list[n]).idx(),
            ),
{
    let mut best: usize = list[0].to_idx();
    let mut best_score: i128 = ucb(node, cpuct, best);
    proof {
        assert(list[0].idx() == best);
    }
    let mut n: usize = 1;
    while n < list.len()
        invariant
            node.ps.len() == 64,
            node.nsa.len() == 64,
            node.wsa.len() == 64,
            forall|i: int| 0 <= i < 64 ==> 0 <= #[trigger] node.ps[i] <= SCALE,
            forall|i: int|
                0 <= i < 64 ==> -(SCALE as int) * ((#[trigger] node.nsa[i]) as int) <= node.wsa[i]
                    as int <= (SCALE as int) * (node.nsa[i] as int),
            0 <= cpuct <= 100 * SCALE,
            list.len() >= 1,
            forall|m: int| 0 <= m < list.len() ==> (#[trigger] list[m]).wf(),
            1 <= n <= list.len(),
            best < 64,
            exists|m: int| 0 <= m < list.len() && (#[trigger] list[m]).idx() == best,
            best_score as int == spec_ucb(*node, cpuct as int, best as int),
            forall|m: int|
                0 <= m < n ==> spec_ucb(*node, cpuct as int, best as int) >= spec_ucb(
                    *node,
                    cpuct as int,
                    (#[trigger] list[m]).idx(),
                ),
        decreases list.len() - n,
    {
        let a = list[n].to_idx();
        let s = ucb(node, cpuct, a);
        if s >= best_score {
            best = a;
            best_score = s;
            proof {
                assert(list[n as int].idx() == best);
            }
        }
        n = n + 1;
    }
    best
}

/// The visit-count readout of a root node: the visit counts normalized by
/// their sum, or the uniform distribution over the legal set when no
/// visits were recorded.
pub open spec fn spec_counts_at(nsa: Seq<u64>, legal: u64, i: int) -> int {
    let total = sum_u64(nsa);
    if total == 0 {
        spec_uniform_at(legal, i)
    } else {
        (nsa[i] as int) * (SCALE as int) / total
    }
}

pub(crate) proof fn lemma_sum_u64_zero(s: Seq<u64>)
    requires
        forall|i: int| 0 <= i < s.len() ==> #[trigger] s[i] == 0,
    ensures
        sum_u64(s) == 0,
    decreases s.len(),
{
    if s.len() > 0 {
        lemma_sum_u64_zero(s.drop_last());
    }
}

pub(crate) proof fn lemma_readout_acc(sp: int, sa: int, a: int, t: int, i: int, val: int)
    requires
        1 <= t,
        0 <= a,
        0 <= sp,
        0 <= sa,
        0 <= i,
        val == a * (SCALE as int) / t,
        sp * t <= (SCALE as int) * sa,
        sp * t >= (SCALE as int) * sa - i * t + i,
    ensures
        (sp + val) * t <= (SCALE as int) * (sa + a),
        (sp + val) * t >= (SCALE as int) * (sa + a) - (i + 1) * t + (i + 1),
        val >= 0,
{
    vstd::arithmetic::div_mod::lemma_fundamental_div_mod(a * (SCALE as int), t);
    vstd::arithmetic::div_mod::lemma_mod_division_less_than_divisor(a * (SCALE as int), t);
    assert(a * (SCALE as int) >= 0) by (nonlinear_arith)
        requires
            a >= 0,
            SCALE == 1_000_000,
    ;
    assert(val >= 0) by (nonlinear_arith)
        requires
            val == a * (SCALE as int) / t,
            a * (SCALE as int) >= 0,
            t >= 1,
    ;
    assert(val * t == a * (SCALE as int) - (a * (SCALE as int)) % t) by (nonlinear_arith)
        requires
            val == a * (SCALE as int) / t,
            a * (SCALE as int) == t * (a * (SCALE as int) / t) + (a * (SCALE as int)) % t,
    ;
    assert((sp + val) * t == sp * t + val * t) by (nonlinear_arith);
    assert((SCALE as int) * (sa + a) == (SCALE as int) * sa + a * (SCALE as int))
        by (nonlinear_arith);
    assert((i + 1) * t == i * t + t) by (nonlinear_arith);
}

pub(crate) proof fn lemma_readout_final(sp: int, t: int)
    requires
        1 <= t,
        sp * t <= (SCALE as int) * t,
        sp * t >= (SCALE as int) * t - 64 * t + 64,
    ensures
        (SCALE as int) - 64 <= sp <= SCALE as int,
{
    assert((SCALE as int) - 64 <= sp <= SCALE as int) by (nonlinear_arith)
        requires
            1 <= t,
            sp * t <= (SCALE as int) * t,
            sp * t >= (SCALE as int) * t - 64 * t + 64,
    ;
}

/// The search engine of one game episode: the statistics maps of the
/// PUCT search, an evaluator, a noise source, and the exploration
/// parameters.  `clear_cache` must be called between independent games.
pub struct MCTS<E, N> {
    evaluator: E,
    noise: N,
    cpuct: i64,
    eps: i64,
    num_simulation: usize,
    nodes: HashMap<u128, Node>,
    evals: Ghost<nat>,
}

impl<E: Evaluator, N: NoiseSource> MCTS<E, N> {
    /// The node map, keyed by state.
    pub closed spec fn spec_nodes(self) -> Map<u128, Node> {
        self.nodes@
    }

    /// How many times the evaluator has been consulted.
    pub closed spec fn spec_evals(self) -> nat {
        self.evals@
    }

    /// The exploration constant of the selection formula, in `SCALE` units.
    pub closed spec fn spec_cpuct(self) -> i64 {
        self.cpuct
    }

    /// The share of exploration noise mixed into the root prior, in
    /// `SCALE` units.
    pub closed spec fn spec_eps(self) -> i64 {
        self.eps
    }

    /// How many simulations one `search` call runs after the first.
    pub closed spec fn spec_num_simulation(self) -> usize {
        self.num_simulation
    }

    /// The evaluator handle.
    pub closed spec fn spec_evaluator(self) -> E {
        self.evaluator
    }

    /// The noise source handle.
    pub closed spec fn spec_noise(self) -> N {
        self.noise
    }

    /// The visit-count readout of a board's node, one cell at a time:
    /// exactly what a successful `search` on that board has returned.
    pub open spec fn spec_root_policy(self, board: Board, i: int) -> int {
        spec_counts_at(self.spec_nodes()[state_key(board)].nsa@, board.spec_legal(), i)
    }

    /// Parameters in range and every node well-formed for its key.
    pub closed spec fn wf(self) -> bool {
        &&& 0 <= self.cpuct <= 100 * SCALE
        &&& 0 <= self.eps <= SCALE
        &&& forall|k: u128|
            #[trigger] self.nodes@.contains_key(k) ==> self.nodes@[k].wf(key_mover(k), key_opp(k))
    }

    /// A fresh engine with empty statistics.  The noise share starts at
    /// the standard quarter (`SCALE / 4`).
    pub fn new(evaluator: E, noise: N, cpuct: i64, num_simulation: usize) -> (r: MCTS<E, N>)
        requires
            0 <= cpuct <= 100 * SCALE,
        ensures
            r.wf(),
            r.spec_nodes() == Map::<u128, Node>::empty(),
            r.spec_evals() == 0,
            r.spec_cpuct() == cpuct,
            r.spec_eps() == SCALE / 4,
            r.spec_num_simulation() == num_simulation,
            r.spec_evaluator() == evaluator,
            r.spec_noise() == noise,
    {
        MCTS {
            evaluator,
            noise,
            cpuct,
            eps: SCALE / 4,
            num_simulation,
            nodes: HashMap::new(),
            evals: Ghost(0),
        }
    }

    /// Reads the evaluator, for callers that carry state in it.
    pub fn evaluator(&self) -> (r: &E)
        ensures
            *r == self.spec_evaluator(),
    {
        &self.evaluator
    }

    /// Changes the share of exploration noise at the root.
    pub fn set_eps(&mut self, eps: i64)
        requires
            old(self).wf(),
            0 <= eps <= SCALE,
        ensures
            final(self).wf(),
            final(self).spec_eps() == eps,
            final(self).spec_nodes() == old(self).spec_nodes(),
            final(self).spec_evals() == old(self).spec_evals(),
            final(self).spec_cpuct() == old(self).spec_cpuct(),
            final(self).spec_num_simulation() == old(self).spec_num_simulation(),
            final(self).spec_evaluator() == old(self).spec_evaluator(),
            final(self).spec_noise() == old(self).spec_noise(),
    {
        self.eps = eps;
    }

    /// Discards all statistics.  Called between independent games, so
    /// that no stale statistics bias an unrelated game tree.
    pub fn clear_cache(&mut self)
        requires
            old(self).wf(),
        ensures
            final(self).wf(),
            final(self).spec_nodes() == Map::<u128, Node>::empty(),
            final(self).spec_evals() == old(self).spec_evals(),
            final(self).spec_eps() == old(self).spec_eps(),
            final(self).spec_cpuct() == old(self).spec_cpuct(),
            final(self).spec_num_simulation() == old(self).spec_num_simulation(),
            final(self).spec_evaluator() == old(self).spec_evaluator(),
            final(self).spec_noise() == old(self).spec_noise(),
    {
        self.nodes = HashMap::new();
    }

    /// The stored prior of a board's node, if the board has been expanded.
    pub fn root_prior(&self, board: &Board) -> (r: Option<Vec<i64>>)
        requires
            self.wf(),
            board.wf(),
        ensures
            r is Some <==> self.spec_nodes().contains_key(state_key(*board)),
            r matches Some(v) ==> v@ == self.spec_nodes()[state_key(*board)].ps@,
    {
        let key = board_key(board);
        match self.nodes.get(&key) {
            Some(node) => {
                let mut v: Vec<i64> = Vec::new();
                let mut i: usize = 0;
                proof {
                    assert(self.nodes@.contains_key(key));
                    assert(node.wf(key_mover(key), key_opp(key)));
                }
                while i < 64
                    invariant
                        node.ps.len() == 64,
                        i <= 64,
                        v.len() == i,
                        forall|j: int| 0 <= j < i ==> #[trigger] v[j] == node.ps[j],
                    decreases 64 - i,
                {
                    v.push(node.ps[i]);
                    i = i + 1;
                }
                proof {
                    assert(v@ =~= node.ps@);
                }
                Some(v)
            },
            None => None,
        }
    }
}

/// The canonical key of a board, as a run-time value.
pub(crate) fn board_key(board: &Board) -> (k: u128)
    ensures
        k == state_key(*board),
{
    let (mover, opp) = if board.turn == crate::board::Stone::Black {
        (board.black, board.white)
    } else {
        (board.white, board.black)
    };
    ((mover as u128) << 64u128) | (opp as u128)
}

impl<E: Evaluator, N: NoiseSource> MCTS<E, N> {
    /// One simulate pass: walk down the tree by the selection formula,
    /// expand the first unvisited state with the evaluator, and back the
    /// value up the visited path.  The value is from the perspective of
    /// the player to move at `board`.
    fn simulate(&mut self, board: &Board) -> (r: Result<i64, SearchError>)
        requires
            old(self).wf(),
            board.wf(),
            board.spec_finished() || board.spec_legal() != 0,
        ensures
            final(self).wf(),
            final(self).spec_cpuct() == old(self).spec_cpuct(),
            final(self).spec_eps() == old(self).spec_eps(),
            final(self).spec_num_simulation() == old(self).spec_num_simulation(),
            old(self).spec_nodes().dom().subset_of(final(self).spec_nodes().dom()),
            final(self).spec_evals() >= old(self).spec_evals(),
            r matches Ok(v) ==> -SCALE <= v <= SCALE,
            r matches Ok(v) && !board.spec_finished() ==> final(self).spec_nodes().contains_key(
                state_key(*board),
            ),
            (r matches Ok(v) && !board.spec_finished() && !old(self).spec_nodes().contains_key(
                state_key(*board),
            )) ==> final(self).spec_evals() > old(self).spec_evals()
                && final(self).spec_nodes()[state_key(*board)].nsa@ == Seq::new(
                64,
                |i: int| 0u64,
            ),
            r matches Err(e) ==> e matches SearchError::Evaluator(_),
            board.spec_finished() ==> *final(self) == *old(self) && (r matches Ok(v) && v as int
                == crate::utils::spec_game_result(*board, board.turn) * (SCALE as int)),
            (!board.spec_finished() && old(self).spec_nodes().contains_key(state_key(*board)) && r
                is Ok) ==> spec_visit_step(
                old(self).spec_nodes()[state_key(*board)],
                final(self).spec_nodes()[state_key(*board)],
            ),
        decreases 64 - pop64(board.black | board.white),
    {
        if board.finished() {
            let outcome = crate::utils::game_result(board, board.turn);
            return Ok((outcome as i64) * SCALE);
        }
        let key = board_key(board);
        proof {
            lemma_state_key(*board);
        }
        if !self.nodes.contains_key(&key) {
            // Leaf expansion: consult the evaluator once, store the masked
            // and renormalized prior, and stop this pass here.
            match self.evaluator.evaluate(board) {
                Err(e) => Err(SearchError::Evaluator(e)),
                Ok(ev) => {
                    self.evals = Ghost(self.evals@ + 1);
                    let legal = board.get_legal_moves();
                    let ps = masked_renorm(&ev.policy, legal.0);
                    let node = Node {
                        legal: legal.0,
                        ps,
                        ns: 0,
                        nsa: zeros_u64(),
                        wsa: zeros_i128(),
                    };
                    proof {
                        assert forall|i: int| 0 <= i < 64 implies -(SCALE as int) * ((
                        #[trigger] node.nsa[i]) as int) <= node.wsa[i] as int <= (SCALE as int) * (
                        node.nsa[i] as int) by {
                            assert(node.nsa[i] == 0u64 && node.wsa[i] == 0i128);
                            assert((SCALE as int) * 0 == 0) by (nonlinear_arith);
                        }
                        assert forall|i: int|
                            0 <= i < node.nsa@.len() implies #[trigger] node.nsa@[i] == 0 by {}
                        lemma_sum_u64_zero(node.nsa@);
                        assert(node.wf(key_mover(key), key_opp(key)));
                    }
                    self.nodes.insert(key, node);
                    proof {
                        assert forall|k: u128| #[trigger] self.nodes@.contains_key(k)
                            implies self.nodes@[k].wf(key_mover(k), key_opp(k)) by {
                            if k != key {
                                assert(old(self).spec_nodes().contains_key(k));
                            }
                        }
                    }
                    Ok(ev.value)
                },
            }
        } else {
            // Selection: take the node out, pick the action with the
            // greatest score, play it, recurse, and back the value up into
            // the taken-out statistics.
            let moves = board.get_legal_moves().to_position_list();
            proof {
                assert(self.nodes@.contains_key(key));
                if moves.len() == 0 {
                    assert(false);
                }
            }
            let cpuct = self.cpuct;
            let mut node = self.nodes.remove(&key).unwrap();
            let ghost node0 = node;
            proof {
                assert(node0.wf(key_mover(key), key_opp(key)));
                assert forall|k: u128| #[trigger] self.nodes@.contains_key(k)
                    implies self.nodes@[k].wf(key_mover(k), key_opp(k)) by {}
                assert forall|i: int| 0 <= i < 64 implies 0 <= #[trigger] node0.ps[i]
                    <= SCALE by {}
                assert forall|i: int|
                    #![trigger node0.ps[i]]
                    #![trigger node0.nsa[i]]
                    0 <= i < 64 && !occ(node0.legal, i) implies node0.ps[i] == 0 && node0.nsa[i]
                    == 0 by {}
                assert forall|i: int| 0 <= i < 64 implies -(SCALE as int) * ((
                #[trigger] node0.nsa[i]) as int) <= node0.wsa[i] as int <= (SCALE as int) * (
                node0.nsa[i] as int) by {}
            }
            let a = select_action(&node, cpuct, &moves);
            let pos = Position(crate::bits::UPPER_LEFT >> (a as u64));
            proof {
                crate::othello_logic::lemma_cell_index(pos.0, a as int);
                let n = choose|n: int| 0 <= n < moves.len() && (#[trigger] moves[n]).idx() == a;
                assert(occ(board.spec_legal(), a as int));
            }
            let mut child = *board;
            let put_result = child.put(pos);
            proof {
                assert(put_result is Ok);
                assert(child.wf());
                assert(child.spec_finished() || child.spec_legal() != 0);
                crate::bits::lemma_pop64_le(child.black | child.white);
            }
            let same_mover = child.turn == board.turn;
            let sub = self.simulate(&child);
            match sub {
                Err(e) => {
                    // An aborted pass leaves the taken-out statistics as
                    // they were.
                    self.nodes.insert(key, node);
                    proof {
                        assert forall|k: u128| #[trigger] self.nodes@.contains_key(k)
                            implies self.nodes@[k].wf(key_mover(k), key_opp(k)) by {}
                    }
                    Err(e)
                },
                Ok(cv) => {
                    let v: i64 = if same_mover {
                        cv
                    } else {
                        -cv
                    };
                    let nsa_a = node.nsa[a];
                    if node.ns < 0xffff_ffff_ffff_ffffu64 {
                        proof {
                            lemma_sum_u64_elem(node.nsa@, a as int);
                            assert(nsa_a < 0xffff_ffff_ffff_ffffu64);
                            assert(-20_000_000_000_000_000_000_000_000 <= node.wsa[a as int] as int
                                <= 20_000_000_000_000_000_000_000_000) by (nonlinear_arith)
                                requires
                                    SCALE == 1_000_000,
                                    0 <= node.nsa[a as int] as int <= 0xffff_ffff_ffff_ffff,
                                    -(SCALE as int) * (node.nsa[a as int] as int) <= node.wsa[
                                    a as int] as int <= (SCALE as int) * (node.nsa[a as int] as int),
                            ;
                            assert((SCALE as int) * (node.nsa[a as int] as int + 1) == (SCALE
                                as int) * (node.nsa[a as int] as int) + SCALE) by (nonlinear_arith);
                            lemma_sum_u64_update(node.nsa@, a as int, (nsa_a + 1) as u64);
                        }
                        let new_w = node.wsa[a] + (v as i128);
                        node.wsa.set(a, new_w);
                        node.nsa.set(a, nsa_a + 1);
                        node.ns = node.ns + 1;
                    }
                    proof {
                        assert(node.legal == node0.legal);
                        assert(node.ps@ == node0.ps@);
                        assert(node.wsa.len() == 64 && node.nsa.len() == 64);
                        assert(occ(node.legal, a as int));
                        assert forall|i: int| 0 <= i < 64 implies 0 <= #[trigger] node.ps[i]
                            <= SCALE by {
                            assert(node.ps[i] == node0.ps[i]);
                        }
                        assert forall|i: int|
                            0 <= i < 64 && !occ(node.legal, i) implies #[trigger] node.ps[i] == 0
                            && node.nsa[i] == 0 by {
                            assert(node0.ps[i] == 0 && node0.nsa[i] == 0);
                            assert(i != a);
                        }
                        assert forall|i: int| 0 <= i < 64 implies -(SCALE as int) * ((
                        #[trigger] node.nsa[i]) as int) <= node.wsa[i] as int <= (SCALE as int) * (
                        node.nsa[i] as int) by {
                            if i != a {
                                assert(node.nsa[i] == node0.nsa[i] && node.wsa[i] == node0.wsa[i]);
                                assert(-(SCALE as int) * ((node0.nsa[i]) as int) <= node0.wsa[i]
                                    as int <= (SCALE as int) * (node0.nsa[i] as int));
                            }
                        }
                        assert(node.wf(key_mover(key), key_opp(key)));
                        assert(spec_visit_step(node0, node));
                    }
                    self.nodes.insert(key, node);
                    proof {
                        assert forall|k: u128| #[trigger] self.nodes@.contains_key(k)
                            implies self.nodes@[k].wf(key_mover(k), key_opp(k)) by {}
                    }
                    Ok(v)
                },
            }
        }
    }

    /// One full search: runs one simulate pass to ensure the root is
    /// expanded, mixes exploration noise into the root prior, runs
    /// `num_simulation` further passes, and reads the visit counts out as
    /// a fixed-point policy vector over the 64 cells.
    pub fn search(&mut self, board: &Board) -> (r: Result<Vec<i64>, SearchError>)
        requires
            old(self).wf(),
            board.wf(),
        ensures
            final(self).wf(),
            final(self).spec_cpuct() == old(self).spec_cpuct(),
            final(self).spec_eps() == old(self).spec_eps(),
            final(self).spec_num_simulation() == old(self).spec_num_simulation(),
            final(self).spec_evals() >= old(self).spec_evals(),
            old(self).spec_nodes().dom().subset_of(final(self).spec_nodes().dom()),
            board.spec_finished() ==> (r matches Err(e) && e is GameAlreadyFinished
                && *final(self) == *old(self)),
            !board.spec_finished() && board.spec_legal() == 0 ==> (r matches Err(e)
                && e is NoLegalMove && *final(self) == *old(self)),
            !board.spec_finished() && board.spec_legal() != 0 ==> (r is Ok || (r matches Err(e)
                && e is Evaluator)),
            r is Ok ==> final(self).spec_nodes().contains_key(state_key(*board)),
            r is Ok && !old(self).spec_nodes().contains_key(state_key(*board))
                ==> final(self).spec_evals() > old(self).spec_evals(),
            r matches Ok(pol) ==> {
                &&& pol.len() == 64
                &&& forall|i: int| 0 <= i < 64 ==> 0 <= #[trigger] pol[i] <= SCALE
                &&& forall|i: int|
                    0 <= i < 64 && !occ(board.spec_legal(), i) ==> #[trigger] pol[i] == 0
                &&& SCALE - 64 <= sum_i64(pol@) <= SCALE
                &&& forall|i: int|
                    0 <= i < 64 ==> #[trigger] pol[i] == final(self).spec_root_policy(*board, i)
            },
            r matches Ok(pol) ==> ((old(self).spec_num_simulation() == 0
                && !old(self).spec_nodes().contains_key(state_key(*board))) ==> forall|i: int|
                0 <= i < 64 ==> #[trigger] pol[i] == spec_uniform_at(board.spec_legal(), i)),
    {
        if board.finished() {
            return Err(SearchError::GameAlreadyFinished);
        }
        let legal = board.get_legal_moves();
        if legal.0 == 0 {
            return Err(SearchError::NoLegalMove);
        }
        let ghost was_fresh = !self.nodes@.contains_key(state_key(*board));
        let key = board_key(board);
        proof {
            lemma_state_key(*board);
        }
        match self.simulate(board) {
            Err(e) => {
                return Err(e);
            },
            Ok(_) => {},
        }
        // Root exploration noise: replace the stored prior with the
        // renormalized mix of prior and noise.
        if self.eps != 0 {
            let nv = self.noise.sample_masked(legal.0);
            let mut node = self.nodes.remove(&key).unwrap();
            let ghost node0 = node;
            proof {
                assert(node0.wf(key_mover(key), key_opp(key)));
                assert forall|k: u128| #[trigger] self.nodes@.contains_key(k)
                    implies self.nodes@[k].wf(key_mover(k), key_opp(k)) by {}
                assert forall|i: int| 0 <= i < 64 implies 0 <= #[trigger] node0.ps[i]
                    <= SCALE by {}
                assert forall|i: int|
                    #![trigger node0.ps[i]]
                    #![trigger node0.nsa[i]]
                    0 <= i < 64 && !occ(node0.legal, i) implies node0.ps[i] == 0 && node0.nsa[i]
                    == 0 by {}
                assert forall|i: int| 0 <= i < 64 implies -(SCALE as int) * ((
                #[trigger] node0.nsa[i]) as int) <= node0.wsa[i] as int <= (SCALE as int) * (
                node0.nsa[i] as int) by {}
                assert(node.legal == legal.0);
            }
            let new_ps = mix_policy(&node.ps, &nv, self.eps, legal.0);
            node.ps = new_ps;
            proof {
                assert(node.legal == node0.legal);
                assert(node.nsa@ == node0.nsa@);
                assert(node.wsa@ == node0.wsa@);
                assert(node.ns == node0.ns);
                assert forall|i: int|
                    0 <= i < 64 && !occ(node.legal, i) implies #[trigger] node.ps[i] == 0
                    && node.nsa[i] == 0 by {
                    assert(!occ(node0.legal, i));
                    assert(node0.nsa[i] == 0);
                    assert(node.ps[i] == new_ps[i]);
                    assert(new_ps[i] == 0);
                }
                assert forall|i: int| 0 <= i < 64 implies -(SCALE as int) * ((
                #[trigger] node.nsa[i]) as int) <= node.wsa[i] as int <= (SCALE as int) * (
                node.nsa[i] as int) by {
                    assert(-(SCALE as int) * ((node0.nsa[i]) as int) <= node0.wsa[i] as int <= (
                    SCALE as int) * (node0.nsa[i] as int));
                }
                assert(node.wf(key_mover(key), key_opp(key)));
            }
            self.nodes.insert(key, node);
            proof {
                assert forall|k: u128| #[trigger] self.nodes@.contains_key(k)
                    implies self.nodes@[k].wf(key_mover(k), key_opp(k)) by {}
            }
        }
        let ghost nodes_after_noise = self.nodes@;
        let mut s: usize = 0;
        while s < self.num_simulation
            invariant
                self.wf(),
                board.wf(),
                !board.spec_finished(),
                board.spec_legal() != 0,
                self.nodes@.contains_key(state_key(*board)),
                self.spec_cpuct() == old(self).spec_cpuct(),
                self.spec_eps() == old(self).spec_eps(),
                self.spec_num_simulation() == old(self).spec_num_simulation(),
                self.spec_evals() >= old(self).spec_evals(),
                old(self).spec_nodes().dom().subset_of(self.nodes@.dom()),
                was_fresh ==> self.spec_evals() > old(self).spec_evals(),
                (self.spec_num_simulation() == 0 && was_fresh) ==> self.nodes@[state_key(
                    *board,
                )].nsa@ == Seq::new(64, |i: int| 0u64),
            decreases self.num_simulation - s,
        {
            match self.simulate(board) {
                Err(e) => {
                    return Err(e);
                },
                Ok(_) => {},
            }
            s = s + 1;
        }
        // Readout: the visit counts of the root, normalized; the uniform
        // distribution over the legal set when nothing was visited.
        let node_ref = self.nodes.get(&key).unwrap();
        proof {
            assert(node_ref.wf(key_mover(key), key_opp(key)));
            lemma_node_wf_facts(*node_ref, key_mover(key), key_opp(key));
            assert(node_ref.legal == board.spec_legal());
            assert forall|t: int|
                0 <= t < 64 && !occ(node_ref.legal, t) implies #[trigger] node_ref.nsa@[t]
                == 0 by {
                assert(node_ref.nsa[t] == 0);
            }
        }
        let mut total: u128 = 0;
        let mut i: usize = 0;
        while i < 64
            invariant
                node_ref.nsa.len() == 64,
                i <= 64,
                total == sum_u64(node_ref.nsa@.take(i as int)),
                total <= i * 0xffff_ffff_ffff_ffff,
            decreases 64 - i,
        {
            proof {
                lemma_sum_u64_take_next(node_ref.nsa@, i as int);
            }
            total = total + (node_ref.nsa[i] as u128);
            i = i + 1;
        }
        proof {
            assert(node_ref.nsa@.take(64) =~= node_ref.nsa@);
            if self.num_simulation == 0 && was_fresh {
                assert(node_ref.nsa@ == Seq::new(64, |i: int| 0u64));
                assert forall|t: int|
                    0 <= t < node_ref.nsa@.len() implies #[trigger] node_ref.nsa@[t] == 0 by {}
                lemma_sum_u64_zero(node_ref.nsa@);
                assert(total == 0);
            }
        }
        if total == 0 {
            let pol = uniform_policy(legal.0);
            proof {
                assert forall|t: int| 0 <= t < 64 && !occ(board.spec_legal(), t)
                    implies #[trigger] pol[t] == 0 by {
                    assert(pol[t] == spec_uniform_at(legal.0, t));
                }
                assert forall|t: int| 0 <= t < 64 implies #[trigger] pol[t] == spec_counts_at(
                    node_ref.nsa@,
                    board.spec_legal(),
                    t,
                ) by {}
            }
            Ok(pol)
        } else {
            let mut pol: Vec<i64> = Vec::new();
            let ghost tot = total as int;
            let mut spol: i64 = 0;
            let mut j: usize = 0;
            proof {
                assert(sum_u64(node_ref.nsa@.take(0)) == 0);
            }
            while j < 64
                invariant
                    node_ref.nsa.len() == 64,
                    forall|t: int|
                        0 <= t < 64 && !occ(node_ref.legal, t) ==> #[trigger] node_ref.nsa@[t]
                            == 0,
                    1 <= tot,
                    tot == sum_u64(node_ref.nsa@),
                    total == tot,
                    j <= 64,
                    pol.len() == j,
                    spol == sum_i64(pol@),
                    0 <= spol <= j * 1_000_000,
                    forall|t: int|
                        0 <= t < j ==> #[trigger] pol[t] == (node_ref.nsa@[t] as int) * (SCALE
                            as int) / tot,
                    forall|t: int| 0 <= t < j ==> 0 <= #[trigger] pol[t] <= SCALE,
                    (spol as int) * tot <= (SCALE as int) * sum_u64(node_ref.nsa@.take(j as int)),
                    (spol as int) * tot >= (SCALE as int) * sum_u64(node_ref.nsa@.take(j as int))
                        - (j as int) * tot + j,
                decreases 64 - j,
            {
                proof {
                    lemma_sum_u64_elem(node_ref.nsa@, j as int);
                    assert(0 <= (node_ref.nsa@[j as int] as int) * (SCALE as int) / tot <= SCALE)
                        by (nonlinear_arith)
                        requires
                            1 <= tot,
                            0 <= node_ref.nsa@[j as int] as int <= tot,
                            SCALE == 1_000_000,
                    ;
                    assert((node_ref.nsa@[j as int] as int) * (SCALE as int)
                        <= 0xffff_ffff_ffff_ffff * 1_000_000) by (nonlinear_arith)
                        requires
                            0 <= node_ref.nsa@[j as int] as int <= 0xffff_ffff_ffff_ffff,
                            SCALE == 1_000_000,
                    ;
                }
                let num: u128 = (node_ref.nsa[j] as u128) * (SCALE as u128);
                let val: i64 = (num / total) as i64;
                proof {
                    lemma_readout_acc(
                        spol as int,
                        sum_u64(node_ref.nsa@.take(j as int)),
                        node_ref.nsa@[j as int] as int,
                        tot,
                        j as int,
                        val as int,
                    );
                    lemma_sum_u64_take_next(node_ref.nsa@, j as int);
                    lemma_sum_u64_nonneg(node_ref.nsa@.take(j as int));
                    lemma_sum_i64_push(pol@, val);
                }
                pol.push(val);
                spol = spol + val;
                j = j + 1;
            }
            proof {
                assert(node_ref.nsa@.take(64) =~= node_ref.nsa@);
                lemma_readout_final(spol as int, tot);
                assert forall|t: int| 0 <= t < 64 && !occ(board.spec_legal(), t)
                    implies #[trigger] pol[t] == 0 by {
                    assert(node_ref.nsa@[t] == 0);
                    assert((0int) * (SCALE as int) == 0) by (nonlinear_arith);
                    assert((0int) / tot == 0) by (nonlinear_arith)
                        requires
                            tot >= 1,
                    ;
                }
                assert forall|t: int| 0 <= t < 64 implies #[trigger] pol[t] == spec_counts_at(
                    node_ref.nsa@,
                    board.spec_legal(),
                    t,
                ) by {}
            }
            Ok(pol)
        }
    }
}

} // verus!
