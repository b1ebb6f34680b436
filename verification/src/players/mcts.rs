//! The prior-free tree-search baseline: the same per-episode statistics
//! maps as the PUCT engine, but selection by a win-rate UCB1 score and
//! leaf evaluation by playing every simulation out to the end, with no
//! position evaluator at all.

use std::collections::HashMap;

use vstd::prelude::*;

use crate::bits::{occ, pop64};
use crate::board::{Board, Position};
use crate::evaluator::{
    lemma_sum_i64_push, lemma_sum_u64_elem, lemma_sum_u64_take_next, uniform_policy, SCALE,
};
use crate::mcts::{key_mover, key_opp, lemma_state_key, lemma_sum_u64_zero, sqrt_floor, state_key};
use crate::othello_logic::legal_mask;
use crate::players::{Player, PlayerError};

verus! {

/// Statistics of one state: total visits, and per-action win and visit
/// counts.  Wins start at one, an optimistic prior for unseen actions.
pub struct UcbNode {
    pub legal: u64,
    pub visits: u64,
    pub wins: Vec<u64>,
    pub nsa: Vec<u64>,
}

impl UcbNode {
    pub open spec fn wf(self, mover: u64, opp: u64) -> bool {
        &&& self.legal == legal_mask(mover, opp)
        &&& self.legal != 0
        &&& self.wins.len() == 64
        &&& self.nsa.len() == 64
        &&& self.visits >= 1
        &&& self.visits as int == crate::evaluator::sum_u64(self.nsa@) + 1
        &&& forall|i: int| 0 <= i < 64 && !occ(self.legal, i) ==> #[trigger] self.nsa[i] == 0
        &&& forall|i: int| 0 <= i < 64 ==> #[trigger] self.wins[i] as int <= self.nsa[i] + 1
    }
}

/// The base-two logarithm, rounded down; zero below two.
pub open spec fn spec_log2(n: u64) -> int
    decreases n,
{
    if n < 2 {
        0
    } else {
        1 + spec_log2(n / 2)
    }
}

fn log2_floor(n: u64) -> (r: u32)
    ensures
        r == spec_log2(n),
        r < 64,
{
    let mut m: u64 = n;
    let mut r: u32 = 0;
    let mut it: u32 = 0;
    proof {
        assert(n >> 0u64 == n) by (bit_vector);
    }
    while it < 63
        invariant
            it <= 63,
            r <= it,
            m == n >> (it as u64),
            spec_log2(n) == r + spec_log2(m),
        decreases 63 - it,
    {
        proof {
            let itu = it as u64;
            assert((n >> itu) / 2 == n >> ((itu + 1) as u64)) by (bit_vector)
                requires
                    itu < 63,
            ;
        }
        if m >= 2 {
            r = r + 1;
        }
        m = m / 2;
        it = it + 1;
    }
    proof {
        assert(n >> 63u64 < 2) by (bit_vector);
    }
    r
}

/// The UCB1 score of action `a`: the win rate of the action plus an
/// exploration bonus `cpuct * sqrt(ln(total) / visits)` shared by all the
/// state's actions, in fixed point with a base-two logarithm.
pub open spec fn spec_ucb1(node: UcbNode, total: u64, cpuct: int, a: int) -> int {
    let ln_scaled = spec_log2(total) * 693_147;
    let explore = cpuct * sqrt_floor(ln_scaled * (SCALE as int) / (node.visits as int)) / (
    SCALE as int);
    (node.wins[a] as int) * (SCALE as int) / (node.visits as int) + explore
}

/// Computes the score `spec_ucb1` of one action.
fn ucb1(node: &UcbNode, total: u64, cpuct: i64, a: usize) -> (r: i128)
    requires
        a < 64,
        node.wins.len() == 64,
        node.nsa.len() == 64,
        node.visits >= 1,
        0 <= cpuct <= 100 * SCALE,
    ensures
        r as int == spec_ucb1(*node, total, cpuct as int, a as int),
{
    let lg = log2_floor(total);
    let ln_scaled: u64 = (lg as u64) * 693_147;
    let arg: u128 = (ln_scaled as u128) * (SCALE as u128) / (node.visits as u128);
    proof {
        assert((ln_scaled as int) * (SCALE as int) <= 63 * 693_147 * 1_000_000)
            by (nonlinear_arith)
            requires
                0 <= ln_scaled as int <= 63 * 693_147,
                SCALE == 1_000_000,
        ;
        assert((ln_scaled as int) * (SCALE as int) / (node.visits as int) >= 0)
            by (nonlinear_arith)
            requires
                (ln_scaled as int) * (SCALE as int) >= 0,
                node.visits as int >= 1,
        ;
    }
    let sq = crate::mcts::isqrt_u128(arg);
    proof {
        assert(0 <= (cpuct as int) * (sq as int) && (cpuct as int) * (sq as int)
            <= 0x10_0000_0000_0000_0000_0000_0000_0000) by (nonlinear_arith)
            requires
                0 <= cpuct as int <= 100_000_000,
                0 <= sq as int,
                (sq as int) < 0x1_0000_0000_0000_0000,
        ;
    }
    let explore: i128 = (cpuct as i128) * (sq as i128) / (SCALE as i128);
    proof {
        assert((cpuct as int) * (sq as int) / (SCALE as int) <= (cpuct as int) * (sq as int))
            by (nonlinear_arith)
            requires
                (cpuct as int) * (sq as int) >= 0,
                SCALE == 1_000_000,
        ;
        assert((node.wins[a as int] as int) * (SCALE as int)
            <= 0x10_0000_0000_0000_0000_0000_0000_0000 && 0 <= (node.wins[a as int] as int) * (
        SCALE as int)) by (nonlinear_arith)
            requires
                0 <= node.wins[a as int] as int <= 0xffff_ffff_ffff_ffff,
                SCALE == 1_000_000,
        ;
        assert((node.wins[a as int] as int) * (SCALE as int) / (node.visits as int) <= (node.wins[
        a as int] as int) * (SCALE as int)) by (nonlinear_arith)
            requires
                (node.wins[a as int] as int) * (SCALE as int) >= 0,
                node.visits as int >= 1,
        ;
    }
    let win_rate: i128 = ((node.wins[a] as u128) * (SCALE as u128) / (node.visits as u128)) as i128;
    win_rate + explore
}

/// Picks the legal action with the greatest `spec_ucb1` score; ties go to
/// the action encountered last, so the choice is deterministic.
fn select_ucb1(node: &UcbNode, total: u64, cpuct: i64, list: &Vec<Position>) -> (best: usize)
    requires
        node.wins.len() == 64,
        node.nsa.len() == 64,
        node.visits >= 1,
        0 <= cpuct <= 100 * SCALE,
        list.len() >= 1,
        forall|n: int| 0 <= n < list.len() ==> (#[trigger] list[n]).wf(),
    ensures
        best < 64,
        exists|n: int| 0 <= n < list.len() && (#[trigger] list[n]).idx() == best,
        forall|n: int|
            0 <= n < list.len() ==> spec_ucb1(*node, total, cpuct as int, best as int)
                >= spec_ucb1(*node, total, cpuct as int, (#[trigger] list[n]).idx()),
{
    let mut best: usize = list[0].to_idx();
    let mut best_score: i128 = ucb1(node, total, cpuct, best);
    proof {
        assert(list[0].idx() == best);
    }
    let mut n: usize = 1;
    while n < list.len()
        invariant
            node.wins.len() == 64,
            node.nsa.len() == 64,
            node.visits >= 1,
            0 <= cpuct <= 100 * SCALE,
            list.len() >= 1,
            forall|m: int| 0 <= m < list.len() ==> (#[trigger] list[m]).wf(),
            1 <= n <= list.len(),
            best < 64,
            exists|m: int| 0 <= m < list.len() && (#[trigger] list[m]).idx() == best,
            best_score as int == spec_ucb1(*node, total, cpuct as int, best as int),
            forall|m: int|
                0 <= m < n ==> spec_ucb1(*node, total, cpuct as int, best as int) >= spec_ucb1(
                    *node,
                    total,
                    cpuct as int,
                    (#[trigger] list[m]).idx(),
                ),
        decreases list.len() - n,
    {
        let a = list[n].to_idx();
        let s = ucb1(node, total, cpuct, a);
        if s >= best_score {
            best = a;
            best_score = s;
            proof {
                assert(list[n as int].idx() == best);
            }
        }
        n = n + 1;
    }
    best
}

fn ones_u64() -> (v: Vec<u64>)
    ensures
        v@ == Seq::new(64, |i: int| 1u64),
{
    let mut v: Vec<u64> = Vec::new();
    let mut i: usize = 0;
    while i < 64
        invariant
            i <= 64,
            v.len() == i,
            forall|j: int| 0 <= j < i ==> #[trigger] v[j] == 1u64,
        decreases 64 - i,
    {
        v.push(1);
        i = i + 1;
    }
    proof {
        assert(v@ =~= Seq::new(64, |i: int| 1u64));
    }
    v
}

fn zeros_u64() -> (v: Vec<u64>)
    ensures
        v@ == Seq::new(64, |i: int| 0u64),
{
    let mut v: Vec<u64> = Vec::new();
    let mut i: usize = 0;
    while i < 64
        invariant
            i <= 64,
            v.len() == i,
            forall|j: int| 0 <= j < i ==> #[trigger] v[j] == 0u64,
        decreases 64 - i,
    {
        v.push(0);
        i = i + 1;
    }
    proof {
        assert(v@ =~= Seq::new(64, |i: int| 0u64));
    }
    v
}

/// One playout's backup at a node: the legal set is untouched; below the
/// u64 ceiling the total visit count grows by one, some legal action's
/// count grows by one, and that action's win count grows by one exactly
/// when the outcome is a win; at the ceiling the statistics stay put.
pub open spec fn spec_playout_step(oldn: UcbNode, newn: UcbNode, outcome: i8) -> bool {
    &&& newn.legal == oldn.legal
    &&& oldn.visits == 0xffff_ffff_ffff_ffffu64 ==> newn.visits == oldn.visits && newn.nsa@
        == oldn.nsa@ && newn.wins@ == oldn.wins@
    &&& oldn.visits < 0xffff_ffff_ffff_ffffu64 ==> {
        &&& newn.visits == oldn.visits + 1
        &&& exists|a: int|
            {
                &&& 0 <= a < 64
                &&& #[trigger] occ(oldn.legal, a)
                &&& newn.nsa@ == oldn.nsa@.update(a, (oldn.nsa@[a] + 1) as u64)
                &&& newn.wins@ == (if outcome == 1 && oldn.wins@[a] < 0xffff_ffff_ffff_ffffu64 {
                    oldn.wins@.update(a, (oldn.wins@[a] + 1) as u64)
                } else {
                    oldn.wins@
                })
            }
    }
}

/// The prior-free search baseline: the PUCT engine's statistics layout
/// with UCB1 selection and full playouts instead of a learned evaluator.
pub struct MCTSPlayer {
    cpuct: i64,
    num_simulation: usize,
    total: u64,
    nodes: HashMap<u128, UcbNode>,
}

impl MCTSPlayer {
    /// The node map, keyed by state.
    pub closed spec fn spec_nodes(self) -> Map<u128, UcbNode> {
        self.nodes@
    }

    /// The visit-count readout of a board's node, one cell at a time, the
    /// uniform distribution over the legal set when the board has no node:
    /// exactly what a successful `search` on that board has returned.
    pub open spec fn spec_root_policy(self, board: Board, i: int) -> int {
        if self.spec_nodes().contains_key(state_key(board)) {
            crate::mcts::spec_counts_at(
                self.spec_nodes()[state_key(board)].nsa@,
                board.spec_legal(),
                i,
            )
        } else {
            crate::evaluator::spec_uniform_at(board.spec_legal(), i)
        }
    }

    /// Parameters in range, the global playout count started at one, and
    /// every node well-formed for its key.
    pub closed spec fn wf(self) -> bool {
        &&& 0 <= self.cpuct <= 100 * SCALE
        &&& self.total >= 1
        &&& forall|k: u128|
            #[trigger] self.nodes@.contains_key(k) ==> self.nodes@[k].wf(key_mover(k), key_opp(k))
    }

    /// A fresh baseline player.  `cpuct` weighs exploration, in `SCALE`
    /// units.
    pub fn new(cpuct: i64, num_simulation: usize) -> (r: MCTSPlayer)
        requires
            0 <= cpuct <= 100 * SCALE,
        ensures
            r.wf(),
            r.spec_nodes() == Map::<u128, UcbNode>::empty(),
    {
        MCTSPlayer { cpuct, num_simulation, total: 1, nodes: HashMap::new() }
    }

    /// Discards all statistics, as between independent games.
    pub fn clear_cache(&mut self)
        requires
            old(self).wf(),
        ensures
            final(self).wf(),
            final(self).spec_nodes() == Map::<u128, UcbNode>::empty(),
    {
        self.nodes = HashMap::new();
    }

    /// One playout to the end of the game, backing win counts up the
    /// visited path.  The result is the outcome for the player to move at
    /// `board`: 1 a win, -1 a loss, 0 a draw.
    fn simulate(&mut self, board: &Board) -> (r: i8)
        requires
            old(self).wf(),
            board.wf(),
            board.spec_finished() || board.spec_legal() != 0,
        ensures
            final(self).wf(),
            old(self).spec_nodes().dom().subset_of(final(self).spec_nodes().dom()),
            -1 <= r <= 1,
            board.spec_finished() ==> *final(self) == *old(self) && r as int
                == crate::utils::spec_game_result(*board, board.turn),
            !board.spec_finished() ==> final(self).spec_nodes().contains_key(state_key(*board)),
            (!board.spec_finished() && old(self).spec_nodes().contains_key(state_key(*board)))
                ==> spec_playout_step(
                old(self).spec_nodes()[state_key(*board)],
                final(self).spec_nodes()[state_key(*board)],
                r,
            ),
        decreases 64 - pop64(board.black | board.white),
    {
        if board.finished() {
            return crate::utils::game_result(board, board.turn);
        }
        let key = crate::mcts::board_key(board);
        proof {
            lemma_state_key(*board);
        }
        // Take the state's statistics out (or start fresh ones), so the
        // backup below lands on the counts this pass selected from.
        let mut node = if self.nodes.contains_key(&key) {
            let n = self.nodes.remove(&key).unwrap();
            proof {
                assert forall|k: u128| #[trigger] self.nodes@.contains_key(k)
                    implies self.nodes@[k].wf(key_mover(k), key_opp(k)) by {}
            }
            n
        } else {
            let legal = board.get_legal_moves();
            let n = UcbNode { legal: legal.0, visits: 1, wins: ones_u64(), nsa: zeros_u64() };
            proof {
                assert forall|i: int| 0 <= i < n.nsa@.len() implies #[trigger] n.nsa@[i]
                    == 0 by {}
                lemma_sum_u64_zero(n.nsa@);
                assert(n.wf(key_mover(key), key_opp(key)));
            }
            n
        };
        let moves = board.get_legal_moves().to_position_list();
        proof {
            if moves.len() == 0 {
                assert(false);
            }
        }
        let cpuct = self.cpuct;
        let total = self.total;
        proof {
            assert(node.wf(key_mover(key), key_opp(key)));
        }
        let a = select_ucb1(&node, total, cpuct, &moves);
        let pos = Position(crate::bits::UPPER_LEFT >> (a as u64));
        proof {
            crate::othello_logic::lemma_cell_index(pos.0, a as int);
            let n = choose|n: int| 0 <= n < moves.len() && (#[trigger] moves[n]).idx() == a;
            assert(occ(board.spec_legal(), a as int));
        }
        let mut child = *board;
        let put_result = child.put(pos);
        proof {
            assert(put_result is Ok);
            crate::bits::lemma_pop64_le(child.black | child.white);
        }
        let ghost node0 = node;
        proof {
            assert forall|i: int|
                #![trigger node0.nsa[i]]
                #![trigger node0.wins[i]]
                0 <= i < 64 implies (!occ(node0.legal, i) ==> node0.nsa[i] == 0) && node0.wins[i]
                as int <= node0.nsa[i] + 1 by {}
        }
        let same_mover = child.turn == board.turn;
        let sub = self.simulate(&child);
        let v: i8 = if same_mover {
            sub
        } else {
            -sub
        };
        if node.visits < 0xffff_ffff_ffff_ffffu64 {
            let nsa_a = node.nsa[a];
            proof {
                lemma_sum_u64_elem(node.nsa@, a as int);
                assert(nsa_a < 0xffff_ffff_ffff_ffffu64);
                crate::evaluator::lemma_sum_u64_update(node.nsa@, a as int, (nsa_a + 1) as u64);
            }
            node.nsa.set(a, nsa_a + 1);
            node.visits = node.visits + 1;
            if v == 1 {
                let wins_a = node.wins[a];
                if wins_a < 0xffff_ffff_ffff_ffffu64 {
                    node.wins.set(a, wins_a + 1);
                }
            }
        }
        proof {
            assert(node.legal == node0.legal);
            assert(occ(node.legal, a as int));
            assert forall|i: int|
                0 <= i < 64 && !occ(node.legal, i) implies #[trigger] node.nsa[i] == 0 by {
                assert(node0.nsa[i] == 0);
                assert(i != a);
            }
            assert forall|i: int| 0 <= i < 64 implies #[trigger] node.wins[i] as int <= node.nsa[i]
                + 1 by {
                if i != a {
                    assert(node.nsa[i] == node0.nsa[i] && node.wins[i] == node0.wins[i]);
                    assert(node0.wins[i] as int <= node0.nsa[i] + 1);
                }
            }
            assert(node.wf(key_mover(key), key_opp(key)));
            if node0.visits < 0xffff_ffff_ffff_ffffu64 {
                assert(0 <= a && (a as int) < 64 && occ(node0.legal, a as int) && node.nsa@
                    == node0.nsa@.update(a as int, (node0.nsa@[a as int] + 1) as u64) && node.wins@
                    == (if v == 1 && node0.wins@[a as int] < 0xffff_ffff_ffff_ffffu64 {
                    node0.wins@.update(a as int, (node0.wins@[a as int] + 1) as u64)
                } else {
                    node0.wins@
                }));
            }
            assert(spec_playout_step(node0, node, v));
        }
        self.nodes.insert(key, node);
        proof {
            assert forall|k: u128| #[trigger] self.nodes@.contains_key(k)
                implies self.nodes@[k].wf(key_mover(k), key_opp(k)) by {}
        }
        if self.total < 0xffff_ffff_ffff_ffffu64 {
            self.total = self.total + 1;
        }
        v
    }

    /// Runs extra playouts from a position without reading a policy out.
    pub fn init_search(&mut self, num_simulation: usize, board: Board) -> (r: Result<
        (),
        crate::mcts::SearchError,
    >)
        requires
            old(self).wf(),
            board.wf(),
        ensures
            final(self).wf(),
            old(self).spec_nodes().dom().subset_of(final(self).spec_nodes().dom()),
            board.spec_finished() ==> (r matches Err(e) && e is GameAlreadyFinished),
            !board.spec_finished() && board.spec_legal() == 0 ==> (r matches Err(e)
                && e is NoLegalMove),
            !board.spec_finished() && board.spec_legal() != 0 ==> r is Ok,
            r is Ok && num_simulation >= 1 ==> final(self).spec_nodes().contains_key(
                state_key(board),
            ),
    {
        if board.finished() {
            return Err(crate::mcts::SearchError::GameAlreadyFinished);
        }
        if board.get_legal_moves().0 == 0 {
            return Err(crate::mcts::SearchError::NoLegalMove);
        }
        let mut s: usize = 0;
        while s < num_simulation
            invariant
                self.wf(),
                board.wf(),
                !board.spec_finished(),
                board.spec_legal() != 0,
                old(self).spec_nodes().dom().subset_of(self.spec_nodes().dom()),
                s >= 1 ==> self.spec_nodes().contains_key(state_key(board)),
            decreases num_simulation - s,
        {
            let _outcome = self.simulate(&board);
            s = s + 1;
        }
        Ok(())
    }

    /// Runs the configured number of playouts and reads the visit counts
    /// out as a fixed-point policy vector, like the PUCT engine's readout.
    pub fn search(&mut self, board: &Board) -> (r: Result<Vec<i64>, crate::mcts::SearchError>)
        requires
            old(self).wf(),
            board.wf(),
        ensures
            final(self).wf(),
            old(self).spec_nodes().dom().subset_of(final(self).spec_nodes().dom()),
            board.spec_finished() ==> (r matches Err(e) && e is GameAlreadyFinished),
            !board.spec_finished() && board.spec_legal() == 0 ==> (r matches Err(e)
                && e is NoLegalMove),
            !board.spec_finished() && board.spec_legal() != 0 ==> r is Ok,
            r matches Ok(pol) ==> {
                &&& pol.len() == 64
                &&& forall|i: int| 0 <= i < 64 ==> 0 <= #[trigger] pol[i] <= SCALE
                &&& forall|i: int|
                    0 <= i < 64 && !occ(board.spec_legal(), i) ==> #[trigger] pol[i] == 0
                &&& SCALE - 64 <= crate::evaluator::sum_i64(pol@) <= SCALE
                &&& forall|i: int|
                    0 <= i < 64 ==> #[trigger] pol[i] == final(self).spec_root_policy(*board, i)
            },
    {
        if board.finished() {
            return Err(crate::mcts::SearchError::GameAlreadyFinished);
        }
        let legal = board.get_legal_moves();
        if legal.0 == 0 {
            return Err(crate::mcts::SearchError::NoLegalMove);
        }
        let key = crate::mcts::board_key(board);
        proof {
            lemma_state_key(*board);
        }
        let sims = self.num_simulation;
        let mut s: usize = 0;
        while s < sims
            invariant
                self.wf(),
                board.wf(),
                !board.spec_finished(),
                board.spec_legal() != 0,
                old(self).spec_nodes().dom().subset_of(self.spec_nodes().dom()),
            decreases sims - s,
        {
            let _outcome = self.simulate(board);
            s = s + 1;
        }
        match self.nodes.get(&key) {
            None => {
                // Nothing was recorded for the root: the uniform fallback.
                let pol = uniform_policy(legal.0);
                proof {
                    assert forall|t: int| 0 <= t < 64 && !occ(board.spec_legal(), t)
                        implies #[trigger] pol[t] == 0 by {
                        assert(pol[t] == crate::evaluator::spec_uniform_at(legal.0, t));
                    }
                }
                Ok(pol)
            },
            Some(node_ref) => {
                proof {
                    assert(self.nodes@.contains_key(key));
                    assert(node_ref.wf(key_mover(key), key_opp(key)));
                    assert(node_ref.legal == board.spec_legal());
                    assert forall|t: int|
                        0 <= t < 64 && !occ(node_ref.legal, t) implies #[trigger] node_ref.nsa@[t]
                        == 0 by {
                        assert(node_ref.nsa[t] == 0);
                    }
                }
                Ok(counts_readout(&node_ref.nsa, legal.0))
            },
        }
    }
}

/// Normalizes visit counts into a fixed-point policy over the 64 cells,
/// the uniform distribution over the legal set when nothing was visited.
fn counts_readout(nsa: &Vec<u64>, legal: u64) -> (pol: Vec<i64>)
    requires
        nsa.len() == 64,
        legal != 0,
        forall|t: int| 0 <= t < 64 && !occ(legal, t) ==> #[trigger] nsa@[t] == 0,
    ensures
        pol.len() == 64,
        forall|i: int| 0 <= i < 64 ==> 0 <= #[trigger] pol[i] <= SCALE,
        forall|i: int| 0 <= i < 64 && !occ(legal, i) ==> #[trigger] pol[i] == 0,
        SCALE - 64 <= crate::evaluator::sum_i64(pol@) <= SCALE,
        forall|i: int|
            0 <= i < 64 ==> #[trigger] pol[i] == crate::mcts::spec_counts_at(nsa@, legal, i),
{
    let mut total: u128 = 0;
    let mut i: usize = 0;
    while i < 64
        invariant
            nsa.len() == 64,
            i <= 64,
            total == crate::evaluator::sum_u64(nsa@.take(i as int)),
            total <= i * 0xffff_ffff_ffff_ffff,
        decreases 64 - i,
    {
        proof {
            lemma_sum_u64_take_next(nsa@, i as int);
        }
        total = total + (nsa[i] as u128);
        i = i + 1;
    }
    proof {
        assert(nsa@.take(64) =~= nsa@);
    }
    if total == 0 {
        let pol = uniform_policy(legal);
        proof {
            assert forall|t: int| 0 <= t < 64 && !occ(legal, t) implies #[trigger] pol[t]
                == 0 by {
                assert(pol[t] == crate::evaluator::spec_uniform_at(legal, t));
            }
            assert forall|t: int| 0 <= t < 64 implies #[trigger] pol[t]
                == crate::mcts::spec_counts_at(nsa@, legal, t) by {}
        }
        pol
    } else {
        let mut pol: Vec<i64> = Vec::new();
        let ghost tot = total as int;
        let mut spol: i64 = 0;
        let mut j: usize = 0;
        proof {
            assert(crate::evaluator::sum_u64(nsa@.take(0)) == 0);
        }
        while j < 64
            invariant
                nsa.len() == 64,
                forall|t: int| 0 <= t < 64 && !occ(legal, t) ==> #[trigger] nsa@[t] == 0,
                1 <= tot,
                tot == crate::evaluator::sum_u64(nsa@),
                total == tot,
                j <= 64,
                pol.len() == j,
                spol == crate::evaluator::sum_i64(pol@),
                0 <= spol <= j * 1_000_000,
                forall|t: int|
                    0 <= t < j ==> #[trigger] pol[t] == (nsa@[t] as int) * (SCALE as int) / tot,
                forall|t: int| 0 <= t < j ==> 0 <= #[trigger] pol[t] <= SCALE,
                (spol as int) * tot <= (SCALE as int) * crate::evaluator::sum_u64(
                    nsa@.take(j as int),
                ),
                (spol as int) * tot >= (SCALE as int) * crate::evaluator::sum_u64(
                    nsa@.take(j as int),
                ) - (j as int) * tot + j,
            decreases 64 - j,
        {
            proof {
                lemma_sum_u64_elem(nsa@, j as int);
                assert(0 <= (nsa@[j as int] as int) * (SCALE as int) / tot <= SCALE)
                    by (nonlinear_arith)
                    requires
                        1 <= tot,
                        0 <= nsa@[j as int] as int <= tot,
                        SCALE == 1_000_000,
                ;
                assert((nsa@[j as int] as int) * (SCALE as int) <= 0xffff_ffff_ffff_ffff
                    * 1_000_000) by (nonlinear_arith)
                    requires
                        0 <= nsa@[j as int] as int <= 0xffff_ffff_ffff_ffff,
                        SCALE == 1_000_000,
                ;
            }
            let num: u128 = (nsa[j] as u128) * (SCALE as u128);
            let val: i64 = (num / total) as i64;
            proof {
                crate::mcts::lemma_readout_acc(
                    spol as int,
                    crate::evaluator::sum_u64(nsa@.take(j as int)),
                    nsa@[j as int] as int,
                    tot,
                    j as int,
                    val as int,
                );
                lemma_sum_u64_take_next(nsa@, j as int);
                crate::evaluator::lemma_sum_u64_nonneg(nsa@.take(j as int));
                lemma_sum_i64_push(pol@, val);
            }
            pol.push(val);
            spol = spol + val;
            j = j + 1;
        }
        proof {
            assert(nsa@.take(64) =~= nsa@);
            crate::mcts::lemma_readout_final(spol as int, tot);
            assert forall|t: int| 0 <= t < 64 && !occ(legal, t) implies #[trigger] pol[t]
                == 0 by {
                assert(nsa@[t] == 0);
                assert((0int) * (SCALE as int) == 0) by (nonlinear_arith);
                assert((0int) / tot == 0) by (nonlinear_arith)
                    requires
                        tot >= 1,
                ;
            }
            assert forall|t: int| 0 <= t < 64 implies #[trigger] pol[t]
                == crate::mcts::spec_counts_at(nsa@, legal, t) by {}
        }
        pol
    }
}

impl Default for MCTSPlayer {
    /// The standard baseline: an exploration weight near the square root
    /// of two and ten thousand playouts.
    fn default() -> (r: MCTSPlayer)
        ensures
            r.wf(),
    {
        MCTSPlayer::new(1_414_213, 10000)
    }
}

impl Player for MCTSPlayer {
    open spec fn inv(&self) -> bool {
        self.wf()
    }

    fn find_move(&mut self, board: &Board) -> (r: Result<Position, PlayerError>)
        ensures
            board.spec_finished() ==> (r matches Err(pe) && pe matches PlayerError::Search(se)
                && se is GameAlreadyFinished),
            !board.spec_finished() && board.spec_legal() == 0 ==> (r matches Err(pe)
                && pe matches PlayerError::Search(se) && se is NoLegalMove),
            !board.spec_finished() && board.spec_legal() != 0 ==> r is Ok,
            r matches Ok(p) ==> {
                &&& forall|j: int|
                    0 <= j < 64 ==> final(self).spec_root_policy(*board, p.idx())
                        >= #[trigger] final(self).spec_root_policy(*board, j)
                &&& forall|j: int|
                    p.idx() < j < 64 ==> #[trigger] final(self).spec_root_policy(*board, j)
                        < final(self).spec_root_policy(*board, p.idx())
            },
    {
        let pol = match self.search(board) {
            Ok(pol) => pol,
            Err(e) => {
                return Err(PlayerError::Search(e));
            },
        };
        let mut best: usize = 0;
        let mut i: usize = 1;
        while i < 64
            invariant
                pol.len() == 64,
                best < i <= 64,
                1 <= i,
                forall|j: int| 0 <= j < i ==> pol[best as int] >= #[trigger] pol[j],
                forall|j: int| best < j < i ==> #[trigger] pol[j] < pol[best as int],
            decreases 64 - i,
        {
            if pol[i] >= pol[best] {
                best = i;
            }
            i = i + 1;
        }
        proof {
            if pol[best as int] <= 0 {
                assert forall|j: int| 0 <= j < 64 implies #[trigger] pol@[j] <= 0 by {
                    assert(pol[best as int] >= pol[j]);
                }
                crate::evaluator::lemma_sum_i64_all_nonpos(pol@);
                assert(false);
            }
            assert(occ(board.spec_legal(), best as int));
        }
        let p = Position(crate::bits::UPPER_LEFT >> (best as u64));
        proof {
            crate::othello_logic::lemma_cell_index(p.0, best as int);
            assert forall|j: int|
                0 <= j < 64 implies self.spec_root_policy(*board, p.idx())
                >= #[trigger] self.spec_root_policy(*board, j) by {
                assert(pol[j] == self.spec_root_policy(*board, j));
                assert(pol[best as int] == self.spec_root_policy(*board, best as int));
            }
            assert forall|j: int|
                p.idx() < j < 64 implies #[trigger] self.spec_root_policy(*board, j)
                < self.spec_root_policy(*board, p.idx()) by {
                assert(pol[j] == self.spec_root_policy(*board, j));
                assert(pol[best as int] == self.spec_root_policy(*board, best as int));
                assert(pol[j] < pol[best as int]);
            }
        }
        Ok(p)
    }
}

} // verus!
