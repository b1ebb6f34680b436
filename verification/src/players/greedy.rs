//! The greedy baseline: usually the move that maximizes its own immediate
//! stone count, otherwise a uniformly random legal move.

use vstd::prelude::*;

use crate::bits::{occ, pop64};
use crate::board::{Board, Position, Stone};
use crate::evaluator::SCALE;
use crate::players::{Player, PlayerError};

verus! {

/// The mover's own stone count after playing cell `i`.
pub open spec fn spec_own_count_after(board: Board, i: int) -> nat {
    let after = board.spec_apply(i);
    if board.turn == Stone::Black {
        pop64(after.black)
    } else {
        pop64(after.white)
    }
}

/// The legal move that maximizes the mover's immediate stone count, ties
/// going to the lowest cell index; `None` when there is no legal move.
pub fn best_greedy_move(board: &Board) -> (r: Option<Position>)
    requires
        board.wf(),
        !board.spec_finished(),
    ensures
        r is Some <==> board.spec_legal() != 0,
        r matches Some(p) ==> {
            &&& p.wf()
            &&& occ(board.spec_legal(), p.idx())
            &&& forall|c: int|
                #[trigger] occ(board.spec_legal(), c) ==> spec_own_count_after(*board, p.idx())
                    >= spec_own_count_after(*board, c)
            &&& forall|c: int|
                #[trigger] occ(board.spec_legal(), c) && c < p.idx() ==> spec_own_count_after(
                    *board,
                    c,
                ) < spec_own_count_after(*board, p.idx())
        },
{
    let list = board.get_legal_moves().to_position_list();
    if list.len() == 0 {
        return None;
    }
    let mut best: Position = list[0];
    let mut best_num: usize = 0;
    let ghost mut best_at: int = 0;
    let mut n: usize = 0;
    while n < list.len()
        invariant
            board.wf(),
            !board.spec_finished(),
            list.len() >= 1,
            forall|m: int|
                0 <= m < list.len() ==> (#[trigger] list[m]).wf() && occ(
                    board.spec_legal(),
                    list[m].idx(),
                ),
            forall|m: int, m2: int| 0 <= m < m2 < list.len() ==> list[m].idx() < list[m2].idx(),
            n <= list.len(),
            0 <= best_at < list.len(),
            best == list[best_at],
            n > 0 ==> {
                &&& best_at < n
                &&& best_num == spec_own_count_after(*board, best.idx())
                &&& forall|m: int|
                    0 <= m < n ==> best_num >= spec_own_count_after(
                        *board,
                        (#[trigger] list[m]).idx(),
                    )
                &&& forall|m: int|
                    0 <= m < n && list[m].idx() < best.idx() ==> spec_own_count_after(
                        *board,
                        (#[trigger] list[m]).idx(),
                    ) < best_num
            },
            n == 0 ==> best_num == 0 && best_at == 0,
        decreases list.len() - n,
    {
        let p = list[n];
        let mut tmp = *board;
        let put_result = tmp.put(p);
        proof {
            assert(put_result is Ok);
        }
        let count = tmp.count_stone();
        let num = if board.turn == Stone::Black {
            count.black
        } else {
            count.white
        };
        proof {
            assert(num == spec_own_count_after(*board, p.idx()));
            // The played cell itself is occupied by the mover afterwards,
            // so the count is positive.
            broadcast use crate::bits::group_occ_lemmas;

            let ci = p.idx();
            let mover = board.mover_mask();
            let opp = board.opp_mask();
            crate::othello_logic::lemma_mask_where_occ(
                |i: int| crate::othello_logic::is_legal(mover, opp, i),
                ci,
            );
            assert(crate::othello_logic::is_legal(mover, opp, ci));
            let np = mover ^ (crate::bits::cell_bit(ci) | crate::othello_logic::flips_mask(
                mover,
                opp,
                ci,
            ));
            assert(occ(np, ci));
            crate::othello_logic::lemma_occ_pop_pos(np, ci);
            assert(num >= 1);
        }
        if best_num < num {
            best_num = num;
            best = p;
            proof {
                best_at = n as int;
            }
        }
        n = n + 1;
    }
    proof {
        assert forall|c: int| #[trigger] occ(board.spec_legal(), c) implies best_num
            >= spec_own_count_after(*board, c) by {
            let m = choose|m: int| 0 <= m < list.len() && (#[trigger] list[m]).idx() == c;
        }
        assert forall|c: int|
            #[trigger] occ(board.spec_legal(), c) && c < best.idx() implies spec_own_count_after(
            *board,
            c,
        ) < best_num by {
            let m = choose|m: int| 0 <= m < list.len() && (#[trigger] list[m]).idx() == c;
            if m >= best_at {
                if m > best_at {
                    assert(list[best_at].idx() < list[m].idx());
                }
                assert(false);
            }
        }
    }
    Some(best)
}

/// A player that plays the greedy move with a fixed probability and a
/// uniformly random legal move otherwise.  The probability is a
/// fixed-point number in units of `1 / SCALE`.
pub struct GreedyPlayer {
    pub p_greedy: i64,
}

impl GreedyPlayer {
    /// A greedy player following the greedy move with probability
    /// `p_greedy / SCALE`.
    pub fn new(p_greedy: i64) -> (r: GreedyPlayer)
        requires
            0 <= p_greedy <= SCALE,
        ensures
            r.inv(),
            r.p_greedy == p_greedy,
    {
        GreedyPlayer { p_greedy }
    }
}

impl Default for GreedyPlayer {
    /// The standard greedy share: eight tenths.
    fn default() -> (r: GreedyPlayer)
        ensures
            r.inv(),
            r.p_greedy == 800_000,
    {
        GreedyPlayer::new(800_000)
    }
}

impl Player for GreedyPlayer {
    open spec fn inv(&self) -> bool {
        0 <= self.p_greedy <= SCALE
    }

    fn find_move(&mut self, board: &Board) -> (r: Result<Position, PlayerError>)
        ensures
            board.spec_legal() != 0 ==> r is Ok,
            board.spec_legal() == 0 ==> (r matches Err(e) && e is NotFoundLegalMove),
    {
        let legal_moves = board.get_legal_moves();
        let list = legal_moves.to_position_list();
        if list.len() == 0 {
            return Err(PlayerError::NotFoundLegalMove);
        }
        proof {
            // A non-empty legal set means the game is not over.
            assert(!board.spec_finished());
        }
        let draw = crate::rng::gen_index(SCALE as usize);
        if (draw as i64) < self.p_greedy {
            match best_greedy_move(board) {
                Some(p) => Ok(p),
                None => Err(PlayerError::NotFoundLegalMove),
            }
        } else {
            let idx = crate::rng::gen_index(list.len());
            Ok(list[idx])
        }
    }
}

} // verus!
