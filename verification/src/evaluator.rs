//! The evaluator interface of the search engine.
//!
//! A position evaluator maps a board to a move-probability vector and a
//! position value.  Probabilities and values are fixed-point numbers in
//! units of `1 / SCALE`, so that the search can be verified over integers;
//! an adapter around a neural network converts its output into this form.

use vstd::prelude::*;

use crate::bits::occ;
use crate::board::Board;

verus! {

/// The fixed-point unit: a probability of one, a value of plus one.
pub const SCALE: i64 = 1_000_000;

/// Sum of the entries of a vector of fixed-point numbers.
pub open spec fn sum_i64(s: Seq<i64>) -> int
    decreases s.len(),
{
    if s.len() == 0 {
        0
    } else {
        sum_i64(s.drop_last()) + s.last()
    }
}

pub proof fn lemma_sum_i64_push(s: Seq<i64>, x: i64)
    ensures
        sum_i64(s.push(x)) == sum_i64(s) + x,
{
    assert(s.push(x).drop_last() =~= s);
    assert(s.push(x).last() == x);
}

pub proof fn lemma_sum_i64_take_next(s: Seq<i64>, i: int)
    requires
        0 <= i < s.len(),
    ensures
        sum_i64(s.take(i + 1)) == sum_i64(s.take(i)) + s[i],
{
    assert(s.take(i + 1).drop_last() =~= s.take(i));
    assert(s.take(i + 1).last() == s[i]);
}

pub proof fn lemma_sum_i64_nonneg(s: Seq<i64>)
    requires
        forall|i: int| 0 <= i < s.len() ==> #[trigger] s[i] >= 0,
    ensures
        sum_i64(s) >= 0,
    decreases s.len(),
{
    if s.len() > 0 {
        lemma_sum_i64_nonneg(s.drop_last());
    }
}

pub proof fn lemma_sum_i64_all_nonpos(s: Seq<i64>)
    requires
        forall|i: int| 0 <= i < s.len() ==> #[trigger] s[i] <= 0,
    ensures
        sum_i64(s) <= 0,
    decreases s.len(),
{
    if s.len() > 0 {
        lemma_sum_i64_all_nonpos(s.drop_last());
    }
}

/// In a vector of non-negative entries, the sum dominates each entry.
pub proof fn lemma_sum_i64_elem(s: Seq<i64>, i: int)
    requires
        forall|j: int| 0 <= j < s.len() ==> #[trigger] s[j] >= 0,
        0 <= i < s.len(),
    ensures
        sum_i64(s) >= s[i],
    decreases s.len(),
{
    if i == s.len() - 1 {
        lemma_sum_i64_nonneg(s.drop_last());
    } else {
        lemma_sum_i64_elem(s.drop_last(), i);
    }
}

/// Sum of the entries of a vector of visit counts.
pub open spec fn sum_u64(s: Seq<u64>) -> int
    decreases s.len(),
{
    if s.len() == 0 {
        0
    } else {
        sum_u64(s.drop_last()) + s.last()
    }
}

pub proof fn lemma_sum_u64_take_next(s: Seq<u64>, i: int)
    requires
        0 <= i < s.len(),
    ensures
        sum_u64(s.take(i + 1)) == sum_u64(s.take(i)) + s[i],
{
    assert(s.take(i + 1).drop_last() =~= s.take(i));
    assert(s.take(i + 1).last() == s[i]);
}

pub proof fn lemma_sum_u64_nonneg(s: Seq<u64>)
    ensures
        sum_u64(s) >= 0,
    decreases s.len(),
{
    if s.len() > 0 {
        lemma_sum_u64_nonneg(s.drop_last());
    }
}

/// In a vector of visit counts, the sum dominates each entry.
pub proof fn lemma_sum_u64_elem(s: Seq<u64>, i: int)
    requires
        0 <= i < s.len(),
    ensures
        sum_u64(s) >= s[i],
    decreases s.len(),
{
    if i == s.len() - 1 {
        lemma_sum_u64_nonneg(s.drop_last());
    } else {
        lemma_sum_u64_elem(s.drop_last(), i);
    }
}

pub proof fn lemma_sum_u64_update(s: Seq<u64>, i: int, v: u64)
    requires
        0 <= i < s.len(),
    ensures
        sum_u64(s.update(i, v)) == sum_u64(s) - s[i] + v,
    decreases s.len(),
{
    if i == s.len() - 1 {
        assert(s.update(i, v).drop_last() =~= s.drop_last());
        assert(s.update(i, v).last() == v);
    } else {
        assert(s.update(i, v).drop_last() =~= s.drop_last().update(i, v));
        assert(s.update(i, v).last() == s.last());
        lemma_sum_u64_update(s.drop_last(), i, v);
    }
}

/// Number of occupied cells of `mask` with index below `n`.
pub open spec fn cells_below(mask: u64, n: int) -> int
    decreases n,
{
    if n <= 0 {
        0
    } else {
        cells_below(mask, n - 1) + (if occ(mask, n - 1) {
            1int
        } else {
            0int
        })
    }
}

/// Number of occupied cells of `mask`.
pub open spec fn cell_total(mask: u64) -> int {
    cells_below(mask, 64)
}

pub proof fn lemma_cells_below_bounds(mask: u64, n: int)
    requires
        0 <= n,
    ensures
        0 <= cells_below(mask, n) <= n,
    decreases n,
{
    if n > 0 {
        lemma_cells_below_bounds(mask, n - 1);
    }
}

proof fn lemma_cells_below_mono(mask: u64, a: int, b: int)
    requires
        0 <= a <= b,
    ensures
        cells_below(mask, a) <= cells_below(mask, b),
    decreases b,
{
    if a < b {
        lemma_cells_below_mono(mask, a, b - 1);
    }
}

/// A mask other than zero holds at least one cell.
pub proof fn lemma_cell_total_pos(mask: u64)
    requires
        mask != 0,
    ensures
        1 <= cell_total(mask) <= 64,
{
    crate::bits::lemma_nonzero_has_cell(mask);
    let i = choose|i: int| 0 <= i < 64 && occ(mask, i);
    assert(cells_below(mask, i + 1) == cells_below(mask, i) + 1);
    lemma_cells_below_bounds(mask, i);
    lemma_cells_below_mono(mask, i + 1, 64);
    lemma_cells_below_bounds(mask, 64);
}

/// Counts the occupied cells of a mask, cell by cell.
pub fn count_cells(mask: u64) -> (n: usize)
    ensures
        n == cell_total(mask),
{
    let mut n: usize = 0;
    let mut i: usize = 0;
    while i < 64
        invariant
            i <= 64,
            n == cells_below(mask, i as int),
            n <= i,
        decreases 64 - i,
    {
        if crate::othello_logic::test_cell(mask, i) {
            n = n + 1;
        }
        i = i + 1;
    }
    n
}

/// The uniform fixed-point distribution over the cells of `mask`: every
/// cell of the mask gets `SCALE / n`, and the remainder is spread over the
/// first cells so that the whole sums to exactly `SCALE`.
pub open spec fn spec_uniform_at(mask: u64, i: int) -> int {
    let n = cell_total(mask);
    if occ(mask, i) {
        SCALE as int / n + (if cells_below(mask, i) < SCALE as int % n {
            1int
        } else {
            0int
        })
    } else {
        0
    }
}

/// Builds the uniform fixed-point distribution over the cells of `mask`.
pub fn uniform_policy(mask: u64) -> (v: Vec<i64>)
    requires
        mask != 0,
    ensures
        v.len() == 64,
        forall|i: int| 0 <= i < 64 ==> #[trigger] v[i] == spec_uniform_at(mask, i),
        forall|i: int| 0 <= i < 64 ==> 0 <= #[trigger] v[i] <= SCALE,
        sum_i64(v@) == SCALE,
{
    proof {
        lemma_cell_total_pos(mask);
    }
    let n = count_cells(mask) as i64;
    let base: i64 = SCALE / n;
    let rem: i64 = SCALE % n;
    proof {
        vstd::arithmetic::div_mod::lemma_fundamental_div_mod(SCALE as int, n as int);
        assert(0 <= rem < n);
        assert(base >= 1 && base <= SCALE) by (nonlinear_arith)
            requires
                base == SCALE as int / (n as int),
                1 <= n <= 64,
                SCALE == 1_000_000,
        ;
        assert(n >= 2 ==> base + 1 <= SCALE) by (nonlinear_arith)
            requires
                base == SCALE as int / (n as int),
                1 <= n <= 64,
                SCALE == 1_000_000,
        ;
    }
    let mut v: Vec<i64> = Vec::new();
    let mut k: i64 = 0;
    let mut i: usize = 0;
    while i < 64
        invariant
            mask != 0,
            base == SCALE as int / cell_total(mask),
            rem == SCALE as int % cell_total(mask),
            1 <= base <= SCALE,
            0 <= rem < cell_total(mask),
            cell_total(mask) >= 2 ==> base + 1 <= SCALE,
            1 <= cell_total(mask) <= 64,
            n == cell_total(mask),
            i <= 64,
            v.len() == i,
            k == cells_below(mask, i as int),
            0 <= k <= i,
            forall|j: int| 0 <= j < i ==> #[trigger] v[j] == spec_uniform_at(mask, j),
            forall|j: int| 0 <= j < i ==> 0 <= #[trigger] v[j] <= SCALE,
            sum_i64(v@) == base * k + (if k < rem {
                k as int
            } else {
                rem as int
            }),
        decreases 64 - i,
    {
        let ghost old_v = v@;
        let ghost old_k = k as int;
        if crate::othello_logic::test_cell(mask, i) {
            let val: i64 = if k < rem {
                base + 1
            } else {
                base
            };
            proof {
                assert(cell_total(mask) >= 2 ==> base + 1 <= SCALE);
                if k < rem {
                    assert(cell_total(mask) >= 2);
                }
            }
            v.push(val);
            k = k + 1;
            proof {
                lemma_sum_i64_push(old_v, val);
                assert(base * (old_k + 1) == base * old_k + base) by (nonlinear_arith);
            }
        } else {
            v.push(0);
            proof {
                lemma_sum_i64_push(old_v, 0);
            }
        }
        i = i + 1;
    }
    proof {
        assert(k == cell_total(mask));
        assert(sum_i64(v@) == base * k + rem);
        assert(base * k == cell_total(mask) * (SCALE as int / cell_total(mask)))
            by (nonlinear_arith)
            requires
                base == SCALE as int / cell_total(mask),
                k == cell_total(mask),
        ;
        vstd::arithmetic::div_mod::lemma_fundamental_div_mod(SCALE as int, cell_total(mask));
    }
    v
}

/// What an evaluator returns for one board: a move-probability vector of 64
/// fixed-point entries and a position value for the player to move.
pub struct Evaluation {
    pub policy: Vec<i64>,
    pub value: i64,
}

impl Evaluation {
    /// Probabilities lie in `[0, SCALE]`, the value in `[-SCALE, SCALE]`.
    pub open spec fn wf(self) -> bool {
        &&& self.policy.len() == 64
        &&& forall|i: int| 0 <= i < 64 ==> 0 <= #[trigger] self.policy[i] <= SCALE
        &&& -SCALE <= self.value <= SCALE
    }
}

/// A failure of the position evaluator: a missing or malformed model, a
/// shape mismatch, or a runtime inference error.
#[derive(Clone, Debug)]
pub struct EvaluatorError {
    pub message: String,
}

impl EvaluatorError {
    /// The error's text.
    pub fn message(&self) -> (r: String)
        ensures
            r@ == self.message@,
    {
        self.message.clone()
    }
}

/// A position evaluator: policy and value for the player to move.
///
/// Implementations must return a well-formed evaluation; how good the
/// policy is does not matter to the search's correctness.  An adapter in
/// unverified code clamps a neural network's output into this contract.
pub trait Evaluator {
    fn evaluate(&mut self, board: &Board) -> (r: Result<Evaluation, EvaluatorError>)
        requires
            board.wf(),
        ensures
            r matches Ok(e) ==> e.wf(),
    ;
}

/// The trivial evaluator: the uniform policy over all cells and a neutral
/// value.  It turns the search into a prior-free Monte-Carlo tree search
/// and serves as the baseline when no model is loaded.
pub struct UniformEvaluator;

impl Evaluator for UniformEvaluator {
    fn evaluate(&mut self, board: &Board) -> (r: Result<Evaluation, EvaluatorError>) {
        let policy = uniform_policy(0xffff_ffff_ffff_ffffu64);
        proof {
            assert(0xffff_ffff_ffff_ffffu64 != 0) by (bit_vector);
        }
        Ok(Evaluation { policy, value: 0 })
    }
}

/// A source of exploration noise over a set of cells.  The sample is a
/// fixed-point distribution: zero off the mask and summing to `SCALE`.
/// Nothing more is promised: the draw may depend on a random source.
pub trait NoiseSource {
    fn sample_masked(&mut self, mask: u64) -> (v: Vec<i64>)
        requires
            mask != 0,
        ensures
            v.len() == 64,
            forall|i: int| 0 <= i < 64 && !occ(mask, i) ==> #[trigger] v[i] == 0,
            forall|i: int| 0 <= i < 64 ==> 0 <= #[trigger] v[i] <= SCALE,
            sum_i64(v@) == SCALE,
    ;
}

/// The noise source that prefers nothing: the uniform distribution over
/// the mask.  A Dirichlet sampler in unverified code implements
/// `NoiseSource` for play.
pub struct UniformNoise;

impl NoiseSource for UniformNoise {
    fn sample_masked(&mut self, mask: u64) -> (v: Vec<i64>) {
        uniform_policy(mask)
    }
}

} // verus!
