//! The baseline that picks uniformly among the legal moves.

use vstd::prelude::*;

use crate::board::{Board, Position};
use crate::players::{Player, PlayerError};

verus! {

/// A player choosing uniformly at random among the legal moves.
pub struct RandomPlayer;

impl RandomPlayer {
    pub fn new() -> (r: RandomPlayer)
        ensures
            r.inv(),
    {
        RandomPlayer
    }
}

impl Default for RandomPlayer {
    fn default() -> (r: RandomPlayer)
        ensures
            r.inv(),
    {
        RandomPlayer::new()
    }
}

impl Player for RandomPlayer {
    open spec fn inv(&self) -> bool {
        true
    }

    fn find_move(&mut self, board: &Board) -> (r: Result<Position, PlayerError>)
        ensures
            board.spec_legal() != 0 ==> r is Ok,
            board.spec_legal() == 0 ==> (r matches Err(e) && e is NotFoundLegalMove),
    {
        let legal_moves = board.get_legal_moves();
        let list = legal_moves.to_position_list();
        if list.len() == 0 {
            return Err(PlayerError::NotFoundLegalMove);
        }
        let idx = crate::rng::gen_index(list.len());
        Ok(list[idx])
    }
}

} // verus!
