//! The search-guided player: a full PUCT search, then the move with the
//! greatest visit probability.

use vstd::prelude::*;

use crate::bits::{occ, UPPER_LEFT};
use crate::board::{Board, Position};
use crate::evaluator::{lemma_sum_i64_all_nonpos, Evaluator, NoiseSource, SCALE};
use crate::mcts::{state_key, SearchError, MCTS};
use crate::players::{Player, PlayerError};

verus! {

/// A player that answers with the most-visited move of a PUCT search.
pub struct AlphaZeroPlayer<E, N> {
    pub mcts: MCTS<E, N>,
}

impl<E: Evaluator, N: NoiseSource> AlphaZeroPlayer<E, N> {
    /// A player around a fresh search engine with the standard
    /// exploration constant of one.
    pub fn new(evaluator: E, noise: N, num_simulation: usize) -> (r: AlphaZeroPlayer<E, N>)
        ensures
            r.inv(),
            r.mcts.spec_nodes() == Map::<u128, crate::mcts::Node>::empty(),
    {
        AlphaZeroPlayer { mcts: MCTS::new(evaluator, noise, SCALE, num_simulation) }
    }
}

impl<E: Evaluator, N: NoiseSource> Player for AlphaZeroPlayer<E, N> {
    open spec fn inv(&self) -> bool {
        self.mcts.wf()
    }

    fn find_move(&mut self, board: &Board) -> (r: Result<Position, PlayerError>)
        ensures
            board.spec_finished() ==> (r matches Err(pe) && pe matches PlayerError::Search(se)
                && se is GameAlreadyFinished),
            !board.spec_finished() && board.spec_legal() == 0 ==> (r matches Err(pe)
                && pe matches PlayerError::Search(se) && se is NoLegalMove),
            !board.spec_finished() && board.spec_legal() != 0 ==> (r is Ok || (r matches Err(pe)
                && pe matches PlayerError::Search(se) && se is Evaluator)),
            r matches Err(pe) ==> pe is Search,
            r matches Ok(p) ==> {
                &&& final(self).mcts.spec_nodes().contains_key(state_key(*board))
                &&& forall|j: int|
                    0 <= j < 64 ==> final(self).mcts.spec_root_policy(*board, p.idx())
                        >= #[trigger] final(self).mcts.spec_root_policy(*board, j)
                &&& forall|j: int|
                    p.idx() < j < 64 ==> #[trigger] final(self).mcts.spec_root_policy(*board, j)
                        < final(self).mcts.spec_root_policy(*board, p.idx())
            },
    {
        let pol = match self.mcts.search(board) {
            Ok(pol) => pol,
            Err(e) => {
                return Err(PlayerError::Search(e));
            },
        };
        // The returned policy is zero off the legal set and sums close to
        // one, so its greatest entry is positive and marks a legal cell;
        // ties go to the entry encountered last.
        let mut best: usize = 0;
        let mut i: usize = 1;
        while i < 64
            invariant
                pol.len() == 64,
                best < i <= 64,
                1 <= i,
                forall|j: int| 0 <= j < i ==> pol[best as int] >= #[trigger] pol[j],
                forall|j: int| best < j < i ==> #[trigger] pol[j] < pol[best as int],
            decreases 64 - i,
        {
            if pol[i] >= pol[best] {
                best = i;
            }
            i = i + 1;
        }
        proof {
            if pol[best as int] <= 0 {
                assert forall|j: int| 0 <= j < 64 implies #[trigger] pol@[j] <= 0 by {
                    assert(pol[best as int] >= pol[j]);
                }
                lemma_sum_i64_all_nonpos(pol@);
                assert(false);
            }
            assert(occ(board.spec_legal(), best as int));
        }
        let p = Position(UPPER_LEFT >> (best as u64));
        proof {
            crate::othello_logic::lemma_cell_index(p.0, best as int);
            assert forall|j: int|
                0 <= j < 64 implies self.mcts.spec_root_policy(*board, p.idx())
                >= #[trigger] self.mcts.spec_root_policy(*board, j) by {
                assert(pol[j] == self.mcts.spec_root_policy(*board, j));
                assert(pol[best as int] == self.mcts.spec_root_policy(*board, best as int));
            }
            assert forall|j: int|
                p.idx() < j < 64 implies #[trigger] self.mcts.spec_root_policy(*board, j)
                < self.mcts.spec_root_policy(*board, p.idx()) by {
                assert(pol[j] == self.mcts.spec_root_policy(*board, j));
                assert(pol[best as int] == self.mcts.spec_root_policy(*board, best as int));
                assert(pol[j] < pol[best as int]);
            }
        }
        Ok(p)
    }
}

} // verus!
