//! The players: one capability, picking a move on a given board.

use vstd::prelude::*;

use crate::bits::occ;
use crate::board::Board;
use crate::board::Position;

verus! {

/// Why a player could not pick a move.
#[derive(Clone, Debug)]
pub enum PlayerError {
    /// The player was asked to move with an empty legal-move set.
    NotFoundLegalMove,
    /// The player's search failed.
    Search(crate::mcts::SearchError),
}

/// A player picks one move for the player whose turn it is.  A returned
/// move is always legal; with an empty legal-move set every player fails.
pub trait Player {
    /// The player's own invariant, established by its constructor.
    spec fn inv(&self) -> bool;

    fn find_move(&mut self, board: &Board) -> (r: Result<Position, PlayerError>)
        requires
            board.wf(),
            old(self).inv(),
        ensures
            final(self).inv(),
            r matches Ok(p) ==> p.wf() && occ(board.spec_legal(), p.idx()),
            board.spec_legal() == 0 ==> r is Err,
    ;
}

} // verus!

pub mod alphazero;
pub mod greedy;
pub mod mcts;
pub mod random;

pub use alphazero::AlphaZeroPlayer;
pub use greedy::GreedyPlayer;
pub use mcts::MCTSPlayer;
pub use random::RandomPlayer;
